//! Document writer: serializes one mixed exam back into a complete
//! word-processing package, with content types, relationships, style
//! defaults, a footer with an automatic page-number field, section
//! properties with the mandated page layout, embedded images, and a
//! diagnostic literal run where an image asset cannot be resolved.
use vstd::prelude::*;

use crate::config::NghiDinh30;
use crate::model::{OptionItem, Question, Segment};
use crate::strutil::{chars_to_string, dec_digits, str_to_chars, u64_to_string};
use crate::parser::{ent_amp, ent_gt, ent_lt, xml_unescape};
use crate::textscan::{find_from, is_at, spec_find};
use std::io::Write;

verus! {

/// One image file the caller could resolve: its path and its bytes.
pub struct ImageAsset {
    pub path: String,
    pub bytes: Vec<u8>,
}

/// One planned image relationship: a distinct asset path, its
/// relationship id, and the package media name it is stored under.
pub struct ImageRel {
    pub path: String,
    pub rid: u32,
    pub media_name: String,
}

/// Errors while assembling the output package.
#[derive(Debug, Clone, Copy, PartialEq, Eq, Structural)]
pub enum WriterError {
    /// A package entry could not be written.
    Package,
}

/// The image paths of a segment list, in order.
pub open spec fn segs_img_paths(ss: Seq<Segment>) -> Seq<Seq<char>>
    decreases ss.len(),
{
    if ss.len() == 0 {
        Seq::empty()
    } else {
        segs_img_paths(ss.drop_last()) + match ss.last() {
            Segment::Image { asset_path, .. } => seq![asset_path@],
            _ => Seq::empty(),
        }
    }
}

/// The image paths of an option list, in order.
pub open spec fn opts_img_paths(os: Seq<OptionItem>) -> Seq<Seq<char>>
    decreases os.len(),
{
    if os.len() == 0 {
        Seq::empty()
    } else {
        opts_img_paths(os.drop_last()) + segs_img_paths(os.last().content@)
    }
}

/// The image paths referenced by a question list, in order of appearance:
/// stem first, then each option's content.
pub open spec fn qs_img_paths(qs: Seq<Question>) -> Seq<Seq<char>>
    decreases qs.len(),
{
    if qs.len() == 0 {
        Seq::empty()
    } else {
        qs_img_paths(qs.drop_last()) + segs_img_paths(qs.last().stem@) + opts_img_paths(
            qs.last().options@,
        )
    }
}

/// Collect the image paths of one segment list, appending to `out`.
fn collect_segs_paths(ss: &Vec<Segment>, out: &mut Vec<String>)
    ensures
        final(out)@.len() == old(out)@.len() + segs_img_paths(ss@).len(),
        paths_view(final(out)@) == paths_view(old(out)@) + segs_img_paths(ss@),
{
    let mut i: usize = 0;
    proof {
        assert(ss@.take(0) =~= Seq::<Segment>::empty());
        assert(paths_view(out@) =~= paths_view(out@) + segs_img_paths(ss@.take(0)));
    }
    while i < ss.len()
        invariant
            i <= ss@.len(),
            paths_view(out@) =~= paths_view(old(out)@) + segs_img_paths(ss@.take(i as int)),
            out@.len() == old(out)@.len() + segs_img_paths(ss@.take(i as int)).len(),
        decreases ss@.len() - i,
    {
        proof {
            assert(ss@.take(i + 1).drop_last() =~= ss@.take(i as int));
            assert(ss@.take(i + 1).last() == ss@[i as int]);
        }
        match &ss[i] {
            Segment::Image { asset_path, .. } => {
                let ghost before = out@;
                out.push(asset_path.clone());
                proof {
                    assert(paths_view(out@) =~= paths_view(before).push(asset_path@)) by {
                        assert forall|k: int|
                            0 <= k < out@.len() implies paths_view(out@)[k] == paths_view(
                            before,
                        ).push(asset_path@)[k] by {
                            if k < before.len() {
                                assert(out@[k] == before[k]);
                            } else {
                                assert(out@[k]@ == asset_path@);
                            }
                        }
                    }
                    assert(paths_view(out@) =~= paths_view(old(out)@) + segs_img_paths(
                        ss@.take(i + 1),
                    ));
                }
            },
            _ => {
                proof {
                    assert(segs_img_paths(ss@.take(i + 1)) =~= segs_img_paths(ss@.take(i as int)));
                }
            },
        }
        i = i + 1;
    }
    proof {
        assert(ss@.take(ss@.len() as int) =~= ss@);
    }
}

/// The views of a path list.
pub open spec fn paths_view(v: Seq<String>) -> Seq<Seq<char>> {
    v.map_values(|s: String| s@)
}

/// Collect every image path a question list references, in order.
pub fn collect_image_paths(qs: &Vec<Question>) -> (r: Vec<String>)
    ensures
        paths_view(r@) == qs_img_paths(qs@),
{
    let mut out: Vec<String> = Vec::new();
    let mut i: usize = 0;
    proof {
        assert(qs@.take(0) =~= Seq::<Question>::empty());
        assert(paths_view(out@) =~= qs_img_paths(qs@.take(0)));
    }
    while i < qs.len()
        invariant
            i <= qs@.len(),
            paths_view(out@) =~= qs_img_paths(qs@.take(i as int)),
        decreases qs@.len() - i,
    {
        proof {
            assert(qs@.take(i + 1).drop_last() =~= qs@.take(i as int));
            assert(qs@.take(i + 1).last() == qs@[i as int]);
        }
        let q = &qs[i];
        collect_segs_paths(&q.stem, &mut out);
        let ghost after_stem = paths_view(out@);
        let mut j: usize = 0;
        proof {
            assert(q.options@.take(0) =~= Seq::<OptionItem>::empty());
            assert(after_stem =~= after_stem + opts_img_paths(q.options@.take(0)));
        }
        while j < q.options.len()
            invariant
                j <= q.options@.len(),
                paths_view(out@) =~= after_stem + opts_img_paths(q.options@.take(j as int)),
            decreases q.options@.len() - j,
        {
            proof {
                assert(q.options@.take(j + 1).drop_last() =~= q.options@.take(j as int));
                assert(q.options@.take(j + 1).last() == q.options@[j as int]);
            }
            collect_segs_paths(&q.options[j].content, &mut out);
            proof {
                assert(paths_view(out@) =~= after_stem + opts_img_paths(q.options@.take(j + 1)));
            }
            j = j + 1;
        }
        proof {
            assert(q.options@.take(q.options@.len() as int) =~= q.options@);
            assert(paths_view(out@) =~= qs_img_paths(qs@.take(i + 1)));
        }
        i = i + 1;
    }
    proof {
        assert(qs@.take(qs@.len() as int) =~= qs@);
    }
    out
}

/// Whether a path occurs in a path sequence.
pub open spec fn path_in(ps: Seq<Seq<char>>, p: Seq<char>) -> bool {
    exists|i: int| 0 <= i < ps.len() && ps[i] == p
}

/// The distinct referenced paths that the caller can resolve, in order of
/// first reference.
pub open spec fn dedup_rec(
    refs: Seq<Seq<char>>,
    avail: Seq<Seq<char>>,
    i: int,
    acc: Seq<Seq<char>>,
) -> Seq<Seq<char>>
    decreases refs.len() + 1 - i,
{
    if i < 0 || i >= refs.len() {
        acc
    } else {
        let p = refs[i];
        if path_in(avail, p) && !path_in(acc, p) {
            dedup_rec(refs, avail, i + 1, acc.push(p))
        } else {
            dedup_rec(refs, avail, i + 1, acc)
        }
    }
}

/// Whether a path occurs in an asset list, executably.
fn asset_path_in(avail: &Vec<ImageAsset>, p: &String) -> (r: bool)
    ensures
        r == path_in(avail@.map_values(|a: ImageAsset| a.path@), p@),
{
    let ghost ps = avail@.map_values(|a: ImageAsset| a.path@);
    let mut i: usize = 0;
    while i < avail.len()
        invariant
            i <= avail@.len(),
            ps == avail@.map_values(|a: ImageAsset| a.path@),
            forall|k: int| 0 <= k < i ==> #[trigger] ps[k] != p@,
        decreases avail@.len() - i,
    {
        if avail[i].path.eq(p) {
            proof {
                assert(ps[i as int] == p@);
            }
            return true;
        }
        proof {
            assert(ps[i as int] == avail@[i as int].path@);
        }
        i = i + 1;
    }
    false
}

/// Whether a path is already planned, executably.
fn rel_path_in(rels: &Vec<ImageRel>, p: &String) -> (r: bool)
    ensures
        r == path_in(rels_paths(rels@), p@),
{
    let ghost ps = rels_paths(rels@);
    let mut i: usize = 0;
    while i < rels.len()
        invariant
            i <= rels@.len(),
            ps == rels_paths(rels@),
            forall|k: int| 0 <= k < i ==> #[trigger] ps[k] != p@,
        decreases rels@.len() - i,
    {
        if rels[i].path.eq(p) {
            proof {
                assert(ps[i as int] == p@);
            }
            return true;
        }
        proof {
            assert(ps[i as int] == rels@[i as int].path@);
        }
        i = i + 1;
    }
    false
}

/// The planned paths.
pub open spec fn rels_paths(rels: Seq<ImageRel>) -> Seq<Seq<char>> {
    rels.map_values(|r: ImageRel| r.path@)
}

/// The position of the last dot of a file name, or -1 when the final path
/// component has none.
pub open spec fn last_dot(p: Seq<char>) -> int
    decreases p.len(),
{
    if p.len() == 0 {
        -1
    } else if p.last() == '.' {
        p.len() - 1
    } else if p.last() == '/' || p.last() == '\\' {
        -1
    } else {
        last_dot(p.drop_last())
    }
}

/// The extension of a path, dot included, or empty.
pub open spec fn ext_of(p: Seq<char>) -> Seq<char> {
    let d = last_dot(p);
    if d >= 0 {
        p.subrange(d, p.len() as int)
    } else {
        Seq::empty()
    }
}

/// The extension of a path, executably.
fn ext_of_chars(p: &Vec<char>) -> (r: Vec<char>)
    ensures
        r@ == ext_of(p@),
{
    proof {
        assert(p@.subrange(0, p@.len() as int) =~= p@);
    }
    let mut e: usize = p.len();
    loop
        invariant
            e <= p@.len(),
            last_dot(p@) == last_dot(p@.subrange(0, e as int)),
        ensures
            (e > 0 && last_dot(p@) == e - 1 && p@[e - 1] == '.') || (e == 0 && last_dot(p@) == -1),
        decreases e,
    {
        if e == 0 {
            proof {
                assert(p@.subrange(0, 0) =~= Seq::<char>::empty());
            }
            break;
        }
        let ch = p[e - 1];
        proof {
            let pre = p@.subrange(0, e as int);
            assert(pre.last() == p@[e - 1]);
            assert(pre.drop_last() =~= p@.subrange(0, e - 1));
        }
        if ch == '.' {
            break;
        }
        if ch == '/' || ch == '\\' {
            proof {
                assert(last_dot(p@) == -1);
            }
            e = 0;
            proof {
                assert(p@.subrange(0, 0) =~= Seq::<char>::empty());
            }
            break;
        }
        e = e - 1;
    }
    if e == 0 {
        let r: Vec<char> = Vec::new();
        proof {
            assert(r@ =~= ext_of(p@));
        }
        r
    } else {
        let mut r: Vec<char> = Vec::new();
        let mut i: usize = e - 1;
        while i < p.len()
            invariant
                1 <= e <= p@.len(),
                last_dot(p@) == e - 1,
                e - 1 <= i <= p@.len(),
                r@ =~= p@.subrange(e - 1, i as int),
            decreases p@.len() - i,
        {
            r.push(p[i]);
            proof {
                assert(r@ =~= p@.subrange(e - 1, i + 1));
            }
            i = i + 1;
        }
        proof {
            assert(r@ =~= ext_of(p@));
        }
        r
    }
}

/// The media file name for the image of relationship `rid`.
pub open spec fn media_name_of(rid: u32, p: Seq<char>) -> Seq<char> {
    "media/image"@ + dec_digits(rid as nat) + ext_of(p)
}

/// Plan one image relationship per distinct resolvable referenced path, in
/// order of first reference, with ids counted from 3 (ids 1 and 2 carry
/// the styles and the footer).
pub fn plan_image_rels(qs: &Vec<Question>, avail: &Vec<ImageAsset>) -> (r: Vec<ImageRel>)
    requires
        qs_img_paths(qs@).len() + 3 < 0x1_0000_0000,
    ensures
        rels_paths(r@) == dedup_rec(
            qs_img_paths(qs@),
            avail@.map_values(|a: ImageAsset| a.path@),
            0,
            Seq::empty(),
        ),
        forall|k: int| 0 <= k < r@.len() ==> (#[trigger] r@[k]).rid == k + 3,
        forall|k: int|
            0 <= k < r@.len() ==> (#[trigger] r@[k]).media_name@ == media_name_of(
                r@[k].rid,
                r@[k].path@,
            ),
{
    let ghost avps = avail@.map_values(|a: ImageAsset| a.path@);
    let ghost refs = qs_img_paths(qs@);
    let paths = collect_image_paths(qs);
    let mut rels: Vec<ImageRel> = Vec::new();
    let mut i: usize = 0;
    proof {
        assert(rels_paths(rels@) =~= Seq::<Seq<char>>::empty());
    }
    while i < paths.len()
        invariant
            i <= paths@.len(),
            paths_view(paths@) == refs,
            refs.len() + 3 < 0x1_0000_0000,
            avps == avail@.map_values(|a: ImageAsset| a.path@),
            rels@.len() <= i,
            dedup_rec(refs, avps, i as int, rels_paths(rels@)) == dedup_rec(
                refs,
                avps,
                0,
                Seq::empty(),
            ),
            forall|k: int| 0 <= k < rels@.len() ==> (#[trigger] rels@[k]).rid == k + 3,
            forall|k: int|
                0 <= k < rels@.len() ==> (#[trigger] rels@[k]).media_name@ == media_name_of(
                    rels@[k].rid,
                    rels@[k].path@,
                ),
        decreases paths@.len() - i,
    {
        proof {
            assert(refs[i as int] == paths@[i as int]@);
        }
        let p = &paths[i];
        let take_it = asset_path_in(avail, p) && !rel_path_in(&rels, p);
        if take_it {
            let rid = (rels.len() + 3) as u32;
            let pc = str_to_chars(p.as_str());
            let ec = ext_of_chars(&pc);
            let rid_str = u64_to_string(rid as u64);
            let mut mn = String::new();
            mn.append("media/image");
            mn.append(rid_str.as_str());
            mn.append(chars_to_string(&ec).as_str());
            let rel = ImageRel { path: p.clone(), rid, media_name: mn };
            let ghost before = rels@;
            rels.push(rel);
            proof {
                assert(rels_paths(rels@) =~= rels_paths(before).push(p@)) by {
                    assert forall|k: int|
                        0 <= k < rels@.len() implies rels_paths(rels@)[k] == rels_paths(
                        before,
                    ).push(p@)[k] by {
                        if k < before.len() {
                            assert(rels@[k] == before[k]);
                        } else {
                            assert(rels@[k] == rel);
                        }
                    }
                }
                assert(dedup_rec(refs, avps, i + 1, rels_paths(rels@)) == dedup_rec(
                    refs,
                    avps,
                    i as int,
                    rels_paths(before),
                ));
            }
        } else {
            proof {
                assert(dedup_rec(refs, avps, i + 1, rels_paths(rels@)) == dedup_rec(
                    refs,
                    avps,
                    i as int,
                    rels_paths(rels@),
                ));
            }
        }
        i = i + 1;
    }
    proof {
        assert(dedup_rec(refs, avps, refs.len() as int, rels_paths(rels@)) == rels_paths(rels@));
    }
    rels
}

/// The escape of one reserved character.
pub open spec fn esc_char(c: char) -> Seq<char> {
    if c == '&' {
        seq!['&', 'a', 'm', 'p', ';']
    } else if c == '<' {
        seq!['&', 'l', 't', ';']
    } else if c == '>' {
        seq!['&', 'g', 't', ';']
    } else {
        seq![c]
    }
}

/// Markup escaping of a text: reserved characters become entities.
pub open spec fn spec_escape(s: Seq<char>) -> Seq<char>
    decreases s.len(),
{
    if s.len() == 0 {
        Seq::empty()
    } else {
        spec_escape(s.drop_last()) + esc_char(s.last())
    }
}

/// Escape the markup-reserved characters of a text.
pub fn escape_xml(s: &str) -> (r: String)
    ensures
        r@ == spec_escape(s@),
{
    let cs = str_to_chars(s);
    let mut out: Vec<char> = Vec::new();
    let mut i: usize = 0;
    proof {
        assert(cs@.take(0) =~= Seq::<char>::empty());
    }
    while i < cs.len()
        invariant
            i <= cs@.len(),
            cs@ == s@,
            out@ =~= spec_escape(cs@.take(i as int)),
        decreases cs@.len() - i,
    {
        proof {
            assert(cs@.take(i + 1).drop_last() =~= cs@.take(i as int));
            assert(cs@.take(i + 1).last() == cs@[i as int]);
        }
        let c = cs[i];
        if c == '&' {
            out.push('&');
            out.push('a');
            out.push('m');
            out.push('p');
            out.push(';');
        } else if c == '<' {
            out.push('&');
            out.push('l');
            out.push('t');
            out.push(';');
        } else if c == '>' {
            out.push('&');
            out.push('g');
            out.push('t');
            out.push(';');
        } else {
            out.push(c);
        }
        proof {
            assert(out@ =~= spec_escape(cs@.take(i + 1)));
        }
        i = i + 1;
    }
    proof {
        assert(cs@.take(cs@.len() as int) =~= cs@);
    }
    chars_to_string(&out)
}

/// The relationship id planned for a path, or -1 when the path could not
/// be resolved.
pub open spec fn rel_rid_for(rels: Seq<ImageRel>, p: Seq<char>, i: int) -> int
    decreases rels.len() + 1 - i,
{
    if i < 0 || i >= rels.len() {
        -1
    } else if rels[i].path@ == p {
        rels[i].rid as int
    } else {
        rel_rid_for(rels, p, i + 1)
    }
}

/// Look up the planned relationship id for a path.
fn rid_for(rels: &Vec<ImageRel>, p: &String) -> (r: Option<u32>)
    ensures
        match r {
            Some(rid) => rel_rid_for(rels@, p@, 0) == rid as int,
            None => rel_rid_for(rels@, p@, 0) == -1,
        },
{
    let mut i: usize = 0;
    while i < rels.len()
        invariant
            i <= rels@.len(),
            rel_rid_for(rels@, p@, 0) == rel_rid_for(rels@, p@, i as int),
        decreases rels@.len() - i,
    {
        if rels[i].path.eq(p) {
            return Some(rels[i].rid);
        }
        proof {
            assert(rel_rid_for(rels@, p@, i as int) == rel_rid_for(rels@, p@, i + 1));
        }
        i = i + 1;
    }
    None
}

pub const XML_TEXT_RUN_OPEN: &'static str =
    "<w:r><w:rPr><w:sz w:val=\"26\"/><w:rFonts w:ascii=\"Times New Roman\"/></w:rPr><w:t xml:space=\"preserve\">";

pub const XML_TEXT_RUN_CLOSE: &'static str = "</w:t></w:r>";

pub const XML_MATH_RUN_OPEN: &'static str = "<w:r>";

pub const XML_MATH_RUN_CLOSE: &'static str = "</w:r>";

pub const XML_IMG_MISS_OPEN: &'static str = "<w:r><w:t>[Image: ";

pub const XML_IMG_MISS_CLOSE: &'static str = "]</w:t></w:r>";

pub const XML_DRAW_A: &'static str =
    "<w:r><w:drawing><wp:inline distT=\"0\" distB=\"0\" distL=\"0\" distR=\"0\"><wp:extent cx=\"";

pub const XML_DRAW_B: &'static str = "\" cy=\"";

pub const XML_DRAW_C: &'static str = "\"/><wp:docPr id=\"";

pub const XML_DRAW_D: &'static str =
    "\" name=\"Image\"/><a:graphic><a:graphicData uri=\"http://schemas.openxmlformats.org/drawingml/2006/picture\"><pic:pic><pic:nvPicPr><pic:cNvPr id=\"";

pub const XML_DRAW_E: &'static str =
    "\" name=\"Image\"/><pic:cNvPicPr/></pic:nvPicPr><pic:blipFill><a:blip r:embed=\"rId";

pub const XML_DRAW_F: &'static str =
    "\"/><a:stretch><a:fillRect/></a:stretch></pic:blipFill><pic:spPr><a:xfrm><a:off x=\"0\" y=\"0\"/><a:ext cx=\"";

pub const XML_DRAW_G: &'static str =
    "\"/></a:xfrm><a:prstGeom prst=\"rect\"><a:avLst/></a:prstGeom></pic:spPr></pic:pic></a:graphicData></a:graphic></wp:inline></w:drawing></w:r>";

/// The markup of one segment: an escaped text run at the body size, the
/// math markup re-embedded verbatim inside a run, or an image drawing
/// sized in EMU - with a diagnostic literal run when the image's asset
/// path was not resolved.
pub open spec fn spec_segment_xml(seg: Segment, rels: Seq<ImageRel>) -> Seq<char> {
    match seg {
        Segment::Text { text, .. } => XML_TEXT_RUN_OPEN@ + spec_escape(text@)
            + XML_TEXT_RUN_CLOSE@,
        Segment::Math { omml, .. } => XML_MATH_RUN_OPEN@ + omml@ + XML_MATH_RUN_CLOSE@,
        Segment::Image { asset_path, width_emu, height_emu, .. } => {
            let rid = rel_rid_for(rels, asset_path@, 0);
            if rid == -1 {
                XML_IMG_MISS_OPEN@ + asset_path@ + XML_IMG_MISS_CLOSE@
            } else {
                XML_DRAW_A@ + dec_digits(width_emu as nat) + XML_DRAW_B@ + dec_digits(
                    height_emu as nat,
                ) + XML_DRAW_C@ + dec_digits(rid as nat) + XML_DRAW_D@ + dec_digits(rid as nat)
                    + XML_DRAW_E@ + dec_digits(rid as nat) + XML_DRAW_F@ + dec_digits(
                    width_emu as nat,
                ) + XML_DRAW_B@ + dec_digits(height_emu as nat) + XML_DRAW_G@
            }
        },
    }
}

pub const XML_CONTENT_TYPES: &'static str =
    "<?xml version=\"1.0\" encoding=\"UTF-8\" standalone=\"yes\"?>\n<Types xmlns=\"http://schemas.openxmlformats.org/package/2006/content-types\">\n    <Default Extension=\"rels\" ContentType=\"application/vnd.openxmlformats-package.relationships+xml\"/>\n    <Default Extension=\"xml\" ContentType=\"application/xml\"/>\n    <Default Extension=\"png\" ContentType=\"image/png\"/>\n    <Default Extension=\"jpeg\" ContentType=\"image/jpeg\"/>\n    <Default Extension=\"jpg\" ContentType=\"image/jpeg\"/>\n    <Default Extension=\"gif\" ContentType=\"image/gif\"/>\n    <Default Extension=\"bmp\" ContentType=\"image/bmp\"/>\n    <Default Extension=\"wmf\" ContentType=\"image/x-wmf\"/>\n    <Default Extension=\"emf\" ContentType=\"image/x-emf\"/>\n    <Override PartName=\"/word/document.xml\" ContentType=\"application/vnd.openxmlformats-officedocument.wordprocessingml.document.main+xml\"/>\n    <Override PartName=\"/word/styles.xml\" ContentType=\"application/vnd.openxmlformats-officedocument.wordprocessingml.styles+xml\"/>\n    <Override PartName=\"/word/footer1.xml\" ContentType=\"application/vnd.openxmlformats-officedocument.wordprocessingml.footer+xml\"/>\n</Types>";

pub const XML_ROOT_RELS: &'static str =
    "<?xml version=\"1.0\" encoding=\"UTF-8\" standalone=\"yes\"?>\n<Relationships xmlns=\"http://schemas.openxmlformats.org/package/2006/relationships\">\n    <Relationship Id=\"rId1\" Type=\"http://schemas.openxmlformats.org/officeDocument/2006/relationships/officeDocument\" Target=\"word/document.xml\"/>\n</Relationships>";

pub const XML_STYLES: &'static str =
    "<?xml version=\"1.0\" encoding=\"UTF-8\" standalone=\"yes\"?>\n<w:styles xmlns:w=\"http://schemas.openxmlformats.org/wordprocessingml/2006/main\">\n    <w:docDefaults>\n        <w:rPrDefault>\n            <w:rPr>\n                <w:rFonts w:ascii=\"Times New Roman\" w:hAnsi=\"Times New Roman\"/>\n                <w:sz w:val=\"26\"/>\n            </w:rPr>\n        </w:rPrDefault>\n    </w:docDefaults>\n</w:styles>";

pub const XML_FOOTER: &'static str =
    "<?xml version=\"1.0\" encoding=\"UTF-8\" standalone=\"yes\"?>\n<w:ftr xmlns:w=\"http://schemas.openxmlformats.org/wordprocessingml/2006/main\"><w:p><w:pPr><w:jc w:val=\"center\"/></w:pPr><w:r><w:rPr><w:rFonts w:ascii=\"Times New Roman\" w:hAnsi=\"Times New Roman\"/><w:sz w:val=\"26\"/></w:rPr><w:fldChar w:fldCharType=\"begin\"/></w:r><w:r><w:instrText xml:space=\"preserve\"> PAGE </w:instrText></w:r><w:r><w:fldChar w:fldCharType=\"end\"/></w:r></w:p></w:ftr>";

pub const XML_DOC_RELS_HEAD: &'static str =
    "<?xml version=\"1.0\" encoding=\"UTF-8\" standalone=\"yes\"?>\n<Relationships xmlns=\"http://schemas.openxmlformats.org/package/2006/relationships\">\n    <Relationship Id=\"rId1\" Type=\"http://schemas.openxmlformats.org/officeDocument/2006/relationships/styles\" Target=\"styles.xml\"/>\n    <Relationship Id=\"rId2\" Type=\"http://schemas.openxmlformats.org/officeDocument/2006/relationships/footer\" Target=\"footer1.xml\"/>";

pub const XML_REL_A: &'static str = "\n    <Relationship Id=\"rId";

pub const XML_REL_B: &'static str =
    "\" Type=\"http://schemas.openxmlformats.org/officeDocument/2006/relationships/image\" Target=\"";

pub const XML_REL_C: &'static str = "\"/>";

pub const XML_DOC_RELS_TAIL: &'static str = "\n</Relationships>";

pub const XML_DOC_HEAD: &'static str =
    "<?xml version=\"1.0\" encoding=\"UTF-8\" standalone=\"yes\"?>\n<w:document xmlns:w=\"http://schemas.openxmlformats.org/wordprocessingml/2006/main\"\n            xmlns:m=\"http://schemas.openxmlformats.org/officeDocument/2006/math\"\n            xmlns:r=\"http://schemas.openxmlformats.org/officeDocument/2006/relationships\"\n            xmlns:wp=\"http://schemas.openxmlformats.org/drawingml/2006/wordprocessingDrawing\"\n            xmlns:a=\"http://schemas.openxmlformats.org/drawingml/2006/main\"\n            xmlns:pic=\"http://schemas.openxmlformats.org/drawingml/2006/picture\">\n    <w:body>";

pub const XML_SECTPR_A: &'static str =
    "<w:sectPr><w:footerReference w:type=\"default\" r:id=\"rId2\"/><w:pgSz w:w=\"";

pub const XML_SECTPR_B: &'static str = "\" w:h=\"";

pub const XML_SECTPR_C: &'static str = "\"/><w:pgMar w:top=\"";

pub const XML_SECTPR_D: &'static str = "\" w:right=\"";

pub const XML_SECTPR_E: &'static str = "\" w:bottom=\"";

pub const XML_SECTPR_F: &'static str = "\" w:left=\"";

pub const XML_SECTPR_G: &'static str = "\" w:header=\"";

pub const XML_SECTPR_H: &'static str = "\" w:footer=\"";

pub const XML_SECTPR_I: &'static str = "\"/></w:sectPr>";

pub const XML_DOC_TAIL: &'static str = "\n    </w:body>\n</w:document>";

pub const XML_HDR_A: &'static str =
    "\n        <w:p>\n            <w:pPr><w:jc w:val=\"center\"/></w:pPr>\n            <w:r>\n                <w:rPr>\n                    <w:rFonts w:ascii=\"Times New Roman\" w:hAnsi=\"Times New Roman\"/>\n                    <w:b/>\n                    <w:sz w:val=\"28\"/>\n                </w:rPr>\n                <w:t>";

pub const XML_HDR_B: &'static str =
    "</w:t>\n            </w:r>\n        </w:p>\n        <w:p>\n            <w:pPr><w:jc w:val=\"center\"/></w:pPr>\n            <w:r>\n                <w:rPr>\n                    <w:rFonts w:ascii=\"Times New Roman\" w:hAnsi=\"Times New Roman\"/>\n                    <w:b/>\n                    <w:sz w:val=\"32\"/>\n                </w:rPr>\n                <w:t>";

pub const XML_HDR_C: &'static str = " - Mã đề: ";

pub const XML_HDR_D: &'static str =
    "</w:t>\n            </w:r>\n        </w:p>\n        <w:p>\n            <w:pPr><w:jc w:val=\"center\"/></w:pPr>\n            <w:r>\n                <w:rPr>\n                    <w:rFonts w:ascii=\"Times New Roman\" w:hAnsi=\"Times New Roman\"/>\n                    <w:sz w:val=\"24\"/>\n                </w:rPr>\n                <w:t>Môn: ";

pub const XML_HDR_E: &'static str = " - Thời gian: ";

pub const XML_HDR_F: &'static str =
    " phút</w:t>\n            </w:r>\n        </w:p>\n        <w:p/>\n";

pub const XML_P_OPEN: &'static str = "<w:p>";

pub const XML_P_CLOSE: &'static str = "</w:p>";

pub const XML_P_EMPTY: &'static str = "<w:p/>";

pub const XML_OPT_INDENT: &'static str = "<w:pPr><w:ind w:left=\"720\"/></w:pPr>";

pub const XML_QNUM_A: &'static str =
    "<w:r><w:rPr><w:b/><w:sz w:val=\"26\"/><w:rFonts w:ascii=\"Times New Roman\"/></w:rPr><w:t>Câu ";

pub const XML_QNUM_B: &'static str = ". </w:t></w:r>";

pub const XML_LBL_A: &'static str =
    "<w:r><w:rPr><w:b/><w:sz w:val=\"26\"/><w:rFonts w:ascii=\"Times New Roman\"/></w:rPr><w:t>";

pub const XML_LBL_B: &'static str = ". </w:t></w:r>";

pub const QNUM_PREFIX_A: &'static str = "Câu ";

pub const QNUM_PREFIX_B: &'static str = ".";

/// The question-number prefix text for question `num`.
pub open spec fn q_prefix_text(num: nat) -> Seq<char> {
    QNUM_PREFIX_A@ + dec_digits(num) + QNUM_PREFIX_B@
}

/// Whether the first segment already carries the given prefix text.
pub open spec fn first_seg_contains(ss: Seq<Segment>, prefix: Seq<char>) -> bool {
    ss.len() > 0 && match ss[0] {
        Segment::Text { text, .. } => spec_find(text@, prefix, 0) != -1,
        _ => false,
    }
}

/// The markup of a segment list.
pub open spec fn spec_segs_xml(ss: Seq<Segment>, rels: Seq<ImageRel>) -> Seq<char>
    decreases ss.len(),
{
    if ss.len() == 0 {
        Seq::empty()
    } else {
        spec_segs_xml(ss.drop_last(), rels) + spec_segment_xml(ss.last(), rels)
    }
}

/// The markup of one option paragraph: indented, the label run prepended
/// unless the content already opens with the label prefix.
pub open spec fn spec_option_xml(opt: OptionItem, rels: Seq<ImageRel>) -> Seq<char> {
    let label_prefix = opt.label@ + QNUM_PREFIX_B@;
    XML_P_OPEN@ + XML_OPT_INDENT@ + (if first_seg_contains(opt.content@, label_prefix) {
        Seq::<char>::empty()
    } else {
        XML_LBL_A@ + (if opt.locked {
            seq!['#']
        } else {
            Seq::<char>::empty()
        }) + opt.label@ + XML_LBL_B@
    }) + spec_segs_xml(opt.content@, rels) + XML_P_CLOSE@
}

/// The markup of a question's option paragraphs.
pub open spec fn spec_options_xml(os: Seq<OptionItem>, rels: Seq<ImageRel>) -> Seq<char>
    decreases os.len(),
{
    if os.len() == 0 {
        Seq::empty()
    } else {
        spec_options_xml(os.drop_last(), rels) + spec_option_xml(os.last(), rels)
    }
}

/// The markup of one question: its stem paragraph with a bold number run
/// prepended unless the stem already carries the prefix, its option
/// paragraphs, and a spacer.
pub open spec fn spec_question_xml(num: nat, q: Question, rels: Seq<ImageRel>) -> Seq<char> {
    XML_P_OPEN@ + (if first_seg_contains(q.stem@, q_prefix_text(num)) {
        Seq::<char>::empty()
    } else {
        XML_QNUM_A@ + dec_digits(num) + XML_QNUM_B@
    }) + spec_segs_xml(q.stem@, rels) + XML_P_CLOSE@ + spec_options_xml(q.options@, rels)
        + XML_P_EMPTY@
}

/// The markup of the question sequence, numbered from 1.
pub open spec fn spec_questions_xml(qs: Seq<Question>, rels: Seq<ImageRel>, i: int) -> Seq<char>
    decreases qs.len() + 1 - i,
{
    if i < 0 || i >= qs.len() {
        Seq::empty()
    } else {
        spec_question_xml((i + 1) as nat, qs[i], rels) + spec_questions_xml(qs, rels, i + 1)
    }
}

/// The header markup: title, exam name with code, subject and duration.
pub open spec fn spec_header_xml(
    title: Seq<char>,
    code: Seq<char>,
    subject: Seq<char>,
    duration: nat,
) -> Seq<char> {
    XML_HDR_A@ + title + XML_HDR_B@ + title + XML_HDR_C@ + code + XML_HDR_D@ + subject
        + XML_HDR_E@ + dec_digits(duration) + XML_HDR_F@
}

/// The section properties with the mandated page size and margins.
pub open spec fn spec_sectpr_xml() -> Seq<char> {
    XML_SECTPR_A@ + dec_digits(NghiDinh30::PAGE_WIDTH_TWIPS as nat) + XML_SECTPR_B@ + dec_digits(
        NghiDinh30::PAGE_HEIGHT_TWIPS as nat,
    ) + XML_SECTPR_C@ + dec_digits(NghiDinh30::MARGIN_TOP_TWIPS as nat) + XML_SECTPR_D@
        + dec_digits(NghiDinh30::MARGIN_RIGHT_TWIPS as nat) + XML_SECTPR_E@ + dec_digits(
        NghiDinh30::MARGIN_BOTTOM_TWIPS as nat,
    ) + XML_SECTPR_F@ + dec_digits(NghiDinh30::MARGIN_LEFT_TWIPS as nat) + XML_SECTPR_G@
        + dec_digits(NghiDinh30::MARGIN_HEADER_TWIPS as nat) + XML_SECTPR_H@ + dec_digits(
        NghiDinh30::MARGIN_FOOTER_TWIPS as nat,
    ) + XML_SECTPR_I@
}

/// The image relationship entries.
pub open spec fn spec_rels_entries(rels: Seq<ImageRel>) -> Seq<char>
    decreases rels.len(),
{
    if rels.len() == 0 {
        Seq::empty()
    } else {
        spec_rels_entries(rels.drop_last()) + XML_REL_A@ + dec_digits(rels.last().rid as nat)
            + XML_REL_B@ + rels.last().media_name@ + XML_REL_C@
    }
}

/// Exam writer: one mixed exam's questions converted back to the question
/// shape, with the exam identification and the assets directory.
pub struct ExamWriter {
    pub exam_code: String,
    pub questions: Vec<Question>,
    pub exam_title: String,
    pub subject: String,
    pub duration_minutes: u32,
    pub assets_dir: String,
}

impl ExamWriter {
    /// The content-type declarations of the package.
    pub fn generate_content_types(&self) -> (r: String)
        ensures
            r@ == XML_CONTENT_TYPES@,
    {
        String::from_str(XML_CONTENT_TYPES)
    }

    /// The root relationship part.
    pub fn generate_root_rels(&self) -> (r: String)
        ensures
            r@ == XML_ROOT_RELS@,
    {
        String::from_str(XML_ROOT_RELS)
    }

    /// The style defaults part.
    pub fn generate_styles_xml(&self) -> (r: String)
        ensures
            r@ == XML_STYLES@,
    {
        String::from_str(XML_STYLES)
    }

    /// The footer part, with an automatic page-number field.
    pub fn generate_footer(&self) -> (r: String)
        ensures
            r@ == XML_FOOTER@,
    {
        String::from_str(XML_FOOTER)
    }

    /// The document relationship part: styles, footer and one entry per
    /// planned image.
    pub fn generate_document_rels(&self, rels: &Vec<ImageRel>) -> (r: String)
        ensures
            r@ == XML_DOC_RELS_HEAD@ + spec_rels_entries(rels@) + XML_DOC_RELS_TAIL@,
    {
        let mut out = String::from_str(XML_DOC_RELS_HEAD);
        let mut i: usize = 0;
        proof {
            assert(rels@.take(0) =~= Seq::<ImageRel>::empty());
            assert(out@ =~= XML_DOC_RELS_HEAD@ + spec_rels_entries(rels@.take(0)));
        }
        while i < rels.len()
            invariant
                i <= rels@.len(),
                out@ =~= XML_DOC_RELS_HEAD@ + spec_rels_entries(rels@.take(i as int)),
            decreases rels@.len() - i,
        {
            proof {
                assert(rels@.take(i + 1).drop_last() =~= rels@.take(i as int));
                assert(rels@.take(i + 1).last() == rels@[i as int]);
            }
            let rid_str = u64_to_string(rels[i].rid as u64);
            out.append(XML_REL_A);
            out.append(rid_str.as_str());
            out.append(XML_REL_B);
            out.append(rels[i].media_name.as_str());
            out.append(XML_REL_C);
            proof {
                assert(out@ =~= XML_DOC_RELS_HEAD@ + spec_rels_entries(rels@.take(i + 1)));
            }
            i = i + 1;
        }
        proof {
            assert(rels@.take(rels@.len() as int) =~= rels@);
        }
        out.append(XML_DOC_RELS_TAIL);
        out
    }

    /// The header paragraphs of the document body.
    pub fn generate_header(&self) -> (r: String)
        ensures
            r@ == spec_header_xml(
                self.exam_title@,
                self.exam_code@,
                self.subject@,
                self.duration_minutes as nat,
            ),
    {
        let mut out = String::from_str(XML_HDR_A);
        out.append(self.exam_title.as_str());
        out.append(XML_HDR_B);
        out.append(self.exam_title.as_str());
        out.append(XML_HDR_C);
        out.append(self.exam_code.as_str());
        out.append(XML_HDR_D);
        out.append(self.subject.as_str());
        out.append(XML_HDR_E);
        let d = u64_to_string(self.duration_minutes as u64);
        out.append(d.as_str());
        out.append(XML_HDR_F);
        out
    }

    /// The markup of one segment, against the planned image relationships.
    pub fn segment_to_xml(&self, segment: &Segment, rels: &Vec<ImageRel>) -> (r: String)
        ensures
            r@ == spec_segment_xml(*segment, rels@),
    {
        match segment {
            Segment::Text { text, .. } => {
                let mut out = String::from_str(XML_TEXT_RUN_OPEN);
                let esc = escape_xml(text.as_str());
                out.append(esc.as_str());
                out.append(XML_TEXT_RUN_CLOSE);
                out
            },
            Segment::Math { omml, .. } => {
                let mut out = String::from_str(XML_MATH_RUN_OPEN);
                out.append(omml.as_str());
                out.append(XML_MATH_RUN_CLOSE);
                out
            },
            Segment::Image { asset_path, width_emu, height_emu, .. } => {
                match rid_for(rels, asset_path) {
                    Some(rid) => {
                        let w = u64_to_string(*width_emu);
                        let h = u64_to_string(*height_emu);
                        let rs = u64_to_string(rid as u64);
                        let mut out = String::from_str(XML_DRAW_A);
                        out.append(w.as_str());
                        out.append(XML_DRAW_B);
                        out.append(h.as_str());
                        out.append(XML_DRAW_C);
                        out.append(rs.as_str());
                        out.append(XML_DRAW_D);
                        out.append(rs.as_str());
                        out.append(XML_DRAW_E);
                        out.append(rs.as_str());
                        out.append(XML_DRAW_F);
                        out.append(w.as_str());
                        out.append(XML_DRAW_B);
                        out.append(h.as_str());
                        out.append(XML_DRAW_G);
                        out
                    },
                    None => {
                        let mut out = String::from_str(XML_IMG_MISS_OPEN);
                        out.append(asset_path.as_str());
                        out.append(XML_IMG_MISS_CLOSE);
                        out
                    },
                }
            },
        }
    }

    /// The markup of one question and its options.
    pub fn generate_question_xml(
        &self,
        num: usize,
        question: &Question,
        rels: &Vec<ImageRel>,
    ) -> (r: String)
        ensures
            r@ == spec_question_xml(num as nat, *question, rels@),
    {
        let mut out = String::from_str(XML_P_OPEN);
        let num_str = u64_to_string(num as u64);
        let mut prefix = String::from_str(QNUM_PREFIX_A);
        prefix.append(num_str.as_str());
        prefix.append(QNUM_PREFIX_B);
        let already = first_seg_has(&question.stem, &prefix);
        proof {
            assert(prefix@ == q_prefix_text(num as nat));
        }
        if !already {
            out.append(XML_QNUM_A);
            out.append(num_str.as_str());
            out.append(XML_QNUM_B);
        }
        let ghost head = out@;
        let mut i: usize = 0;
        proof {
            assert(question.stem@.take(0) =~= Seq::<Segment>::empty());
            assert(out@ =~= head + spec_segs_xml(question.stem@.take(0), rels@));
        }
        while i < question.stem.len()
            invariant
                i <= question.stem@.len(),
                out@ =~= head + spec_segs_xml(question.stem@.take(i as int), rels@),
            decreases question.stem@.len() - i,
        {
            proof {
                assert(question.stem@.take(i + 1).drop_last() =~= question.stem@.take(i as int));
                assert(question.stem@.take(i + 1).last() == question.stem@[i as int]);
            }
            let sx = self.segment_to_xml(&question.stem[i], rels);
            out.append(sx.as_str());
            proof {
                assert(out@ =~= head + spec_segs_xml(question.stem@.take(i + 1), rels@));
            }
            i = i + 1;
        }
        proof {
            assert(question.stem@.take(question.stem@.len() as int) =~= question.stem@);
        }
        out.append(XML_P_CLOSE);
        let ghost head2 = out@;
        let mut j: usize = 0;
        proof {
            assert(question.options@.take(0) =~= Seq::<OptionItem>::empty());
            assert(out@ =~= head2 + spec_options_xml(question.options@.take(0), rels@));
        }
        while j < question.options.len()
            invariant
                j <= question.options@.len(),
                out@ =~= head2 + spec_options_xml(question.options@.take(j as int), rels@),
            decreases question.options@.len() - j,
        {
            proof {
                assert(question.options@.take(j + 1).drop_last() =~= question.options@.take(
                    j as int,
                ));
                assert(question.options@.take(j + 1).last() == question.options@[j as int]);
            }
            let ox = self.option_to_xml(&question.options[j], rels);
            out.append(ox.as_str());
            proof {
                assert(out@ =~= head2 + spec_options_xml(question.options@.take(j + 1), rels@));
            }
            j = j + 1;
        }
        proof {
            assert(question.options@.take(question.options@.len() as int) =~= question.options@);
        }
        out.append(XML_P_EMPTY);
        out
    }

    /// The markup of one option paragraph.
    pub fn option_to_xml(&self, opt: &OptionItem, rels: &Vec<ImageRel>) -> (r: String)
        ensures
            r@ == spec_option_xml(*opt, rels@),
    {
        let mut out = String::from_str(XML_P_OPEN);
        out.append(XML_OPT_INDENT);
        let mut lp = opt.label.clone();
        lp.append(QNUM_PREFIX_B);
        let already = first_seg_has(&opt.content, &lp);
        if !already {
            out.append(XML_LBL_A);
            if opt.locked {
                out.append("#");
                proof {
                    reveal_strlit("#");
                    assert("#"@ =~= seq!['#']);
                }
            }
            out.append(opt.label.as_str());
            out.append(XML_LBL_B);
        }
        let ghost head = out@;
        let mut i: usize = 0;
        proof {
            assert(opt.content@.take(0) =~= Seq::<Segment>::empty());
            assert(out@ =~= head + spec_segs_xml(opt.content@.take(0), rels@));
        }
        while i < opt.content.len()
            invariant
                i <= opt.content@.len(),
                out@ =~= head + spec_segs_xml(opt.content@.take(i as int), rels@),
            decreases opt.content@.len() - i,
        {
            proof {
                assert(opt.content@.take(i + 1).drop_last() =~= opt.content@.take(i as int));
                assert(opt.content@.take(i + 1).last() == opt.content@[i as int]);
            }
            let sx = self.segment_to_xml(&opt.content[i], rels);
            out.append(sx.as_str());
            proof {
                assert(out@ =~= head + spec_segs_xml(opt.content@.take(i + 1), rels@));
            }
            i = i + 1;
        }
        proof {
            assert(opt.content@.take(opt.content@.len() as int) =~= opt.content@);
        }
        out.append(XML_P_CLOSE);
        out
    }

    /// The main document part: the header, every question, and the section
    /// properties with the mandated layout.
    pub fn generate_document_xml(&self, rels: &Vec<ImageRel>) -> (r: String)
        ensures
            r@ == XML_DOC_HEAD@ + spec_header_xml(
                self.exam_title@,
                self.exam_code@,
                self.subject@,
                self.duration_minutes as nat,
            ) + spec_questions_xml(self.questions@, rels@, 0) + spec_sectpr_xml() + XML_DOC_TAIL@,
    {
        let mut out = String::from_str(XML_DOC_HEAD);
        let hd = self.generate_header();
        out.append(hd.as_str());
        let ghost head = out@;
        let mut i: usize = 0;
        proof {
            assert(out@ =~= head + Seq::<char>::empty());
        }
        while i < self.questions.len()
            invariant
                i <= self.questions@.len(),
                out@ =~= head + spec_questions_prefix(self.questions@, rels@, i as int),
            decreases self.questions@.len() - i,
        {
            let qx = self.generate_question_xml(i + 1, &self.questions[i], rels);
            out.append(qx.as_str());
            proof {
                lemma_questions_prefix(self.questions@, rels@, i as int);
            }
            i = i + 1;
        }
        proof {
            lemma_questions_prefix_full(self.questions@, rels@);
        }
        let sp = self.generate_sectpr();
        out.append(sp.as_str());
        out.append(XML_DOC_TAIL);
        out
    }

    /// The section properties markup.
    pub fn generate_sectpr(&self) -> (r: String)
        ensures
            r@ == spec_sectpr_xml(),
    {
        let mut out = String::from_str(XML_SECTPR_A);
        let v1 = u64_to_string(NghiDinh30::PAGE_WIDTH_TWIPS as u64);
        out.append(v1.as_str());
        out.append(XML_SECTPR_B);
        let v2 = u64_to_string(NghiDinh30::PAGE_HEIGHT_TWIPS as u64);
        out.append(v2.as_str());
        out.append(XML_SECTPR_C);
        let v3 = u64_to_string(NghiDinh30::MARGIN_TOP_TWIPS as u64);
        out.append(v3.as_str());
        out.append(XML_SECTPR_D);
        let v4 = u64_to_string(NghiDinh30::MARGIN_RIGHT_TWIPS as u64);
        out.append(v4.as_str());
        out.append(XML_SECTPR_E);
        let v5 = u64_to_string(NghiDinh30::MARGIN_BOTTOM_TWIPS as u64);
        out.append(v5.as_str());
        out.append(XML_SECTPR_F);
        let v6 = u64_to_string(NghiDinh30::MARGIN_LEFT_TWIPS as u64);
        out.append(v6.as_str());
        out.append(XML_SECTPR_G);
        let v7 = u64_to_string(NghiDinh30::MARGIN_HEADER_TWIPS as u64);
        out.append(v7.as_str());
        out.append(XML_SECTPR_H);
        let v8 = u64_to_string(NghiDinh30::MARGIN_FOOTER_TWIPS as u64);
        out.append(v8.as_str());
        out.append(XML_SECTPR_I);
        out
    }
}

/// The markup of the first `i` questions.
pub open spec fn spec_questions_prefix(qs: Seq<Question>, rels: Seq<ImageRel>, i: int) -> Seq<char>
    decreases i + 1,
{
    if i <= 0 {
        Seq::empty()
    } else {
        spec_questions_prefix(qs, rels, i - 1) + spec_question_xml(i as nat, qs[i - 1], rels)
    }
}

/// Appending the next question extends the prefix markup.
pub proof fn lemma_questions_prefix(qs: Seq<Question>, rels: Seq<ImageRel>, i: int)
    requires
        0 <= i < qs.len(),
    ensures
        spec_questions_prefix(qs, rels, i + 1) == spec_questions_prefix(qs, rels, i)
            + spec_question_xml((i + 1) as nat, qs[i], rels),
{
}

/// The full prefix equals the suffix recursion from zero.
pub proof fn lemma_questions_prefix_full(qs: Seq<Question>, rels: Seq<ImageRel>)
    ensures
        spec_questions_prefix(qs, rels, qs.len() as int) == spec_questions_xml(qs, rels, 0),
{
    lemma_questions_split(qs, rels, 0);
}

proof fn lemma_questions_split(qs: Seq<Question>, rels: Seq<ImageRel>, i: int)
    requires
        0 <= i <= qs.len(),
    ensures
        spec_questions_prefix(qs, rels, qs.len() as int) == spec_questions_prefix(qs, rels, i)
            + spec_questions_xml(qs, rels, i),
    decreases qs.len() - i,
{
    if i == qs.len() {
        assert(spec_questions_xml(qs, rels, i) =~= Seq::<char>::empty());
        assert(spec_questions_prefix(qs, rels, i) + Seq::<char>::empty() =~= spec_questions_prefix(
            qs,
            rels,
            i,
        ));
    } else {
        lemma_questions_split(qs, rels, i + 1);
        lemma_questions_prefix(qs, rels, i);
        assert((spec_questions_prefix(qs, rels, i) + spec_question_xml(
            (i + 1) as nat,
            qs[i],
            rels,
        )) + spec_questions_xml(qs, rels, i + 1) =~= spec_questions_prefix(qs, rels, i) + (
        spec_question_xml((i + 1) as nat, qs[i], rels) + spec_questions_xml(qs, rels, i + 1)));
    }
}

/// Whether the first segment of a list is a text segment containing the
/// prefix.
fn first_seg_has(ss: &Vec<Segment>, prefix: &String) -> (r: bool)
    ensures
        r == first_seg_contains(ss@, prefix@),
{
    if ss.len() == 0 {
        return false;
    }
    match &ss[0] {
        Segment::Text { text, .. } => {
            let tc = str_to_chars(text.as_str());
            let pc = str_to_chars(prefix.as_str());
            match find_from(&tc, &pc, 0) {
                Some(_) => true,
                None => false,
            }
        },
        _ => false,
    }
}

/// The in-progress package archive.  The archive writer's type takes
/// trait-bounded generics that this verifier will not declare, so the
/// whole struct is opaque and every operation on it is a trusted wrapper
/// speaking of `ar_entries`, the model of its contents.
#[verifier::external_body]
pub struct PackageArchive {
    inner: zip::write::ZipWriter<std::io::Cursor<Vec<u8>>>,
}

/// The modeled content of one archive entry: nothing written yet, a text
/// whose UTF-8 encoding was written, or raw bytes.
#[verifier::ext_equal]
pub enum EntryData {
    Empty,
    Text(Seq<char>),
    Bytes(Seq<u8>),
}

/// What the archive holds: the entries in creation order, each a name and
/// its written (uncompressed) content.
pub uninterp spec fn ar_entries(z: PackageArchive) -> Seq<(Seq<char>, EntryData)>;

/// Relies on zip::write::ZipWriter::new over an in-memory cursor: a fresh
/// archive writer holds no entries.
#[verifier::external_body]
fn zip_new() -> (r: PackageArchive)
    ensures
        ar_entries(r) == Seq::<(Seq<char>, EntryData)>::empty(),
{
    PackageArchive { inner: zip::write::ZipWriter::new(std::io::Cursor::new(Vec::new())) }
}

/// Relies on zip::write::ZipWriter::start_file with deflate compression:
/// on success it closes any open entry and appends a new, still-empty
/// entry under the given name.
#[verifier::external_body]
fn zip_start_file(z: &mut PackageArchive, name: &str) -> (r: Result<(), WriterError>)
    ensures
        r is Ok ==> ar_entries(*final(z)) == ar_entries(*old(z)).push((name@, EntryData::Empty)),
{
    match z.inner.start_file(
        name,
        zip::write::FileOptions::default().compression_method(
            zip::CompressionMethod::Deflated,
        ).unix_permissions(0o755),
    ) {
        Ok(()) => Ok(()),
        Err(_) => Err(WriterError::Package),
    }
}

/// Relies on std::io::Write::write_all for ZipWriter (an empty buffer is
/// accepted without writing; otherwise writing errors when no entry is
/// open): on success, nonempty text appends its UTF-8 encoding to the
/// open entry, so a text entry stays a text entry, and empty text leaves
/// the archive untouched.
#[verifier::external_body]
fn zip_write_text(z: &mut PackageArchive, data: &str) -> (r: Result<(), WriterError>)
    ensures
        r is Ok && data@.len() > 0 ==> ({
            let es = ar_entries(*old(z));
            &&& es.len() > 0
            &&& match es.last().1 {
                EntryData::Empty => ar_entries(*final(z)) == es.update(
                    es.len() - 1,
                    (es.last().0, EntryData::Text(data@)),
                ),
                EntryData::Text(u) => ar_entries(*final(z)) == es.update(
                    es.len() - 1,
                    (es.last().0, EntryData::Text(u + data@)),
                ),
                EntryData::Bytes(_) => true,
            }
        }),
        r is Ok && data@.len() == 0 ==> ar_entries(*final(z)) == ar_entries(*old(z)),
{
    match z.inner.write_all(data.as_bytes()) {
        Ok(()) => Ok(()),
        Err(_) => Err(WriterError::Package),
    }
}

/// Relies on std::io::Write::write_all for ZipWriter (an empty buffer is
/// accepted without writing; otherwise writing errors when no entry is
/// open): on success, nonempty bytes are appended to the open entry, and
/// empty bytes leave the archive untouched.
#[verifier::external_body]
fn zip_write_bytes(z: &mut PackageArchive, data: &[u8]) -> (r: Result<(), WriterError>)
    ensures
        r is Ok && data@.len() > 0 ==> ({
            let es = ar_entries(*old(z));
            &&& es.len() > 0
            &&& match es.last().1 {
                EntryData::Empty => ar_entries(*final(z)) == es.update(
                    es.len() - 1,
                    (es.last().0, EntryData::Bytes(data@)),
                ),
                EntryData::Bytes(b) => ar_entries(*final(z)) == es.update(
                    es.len() - 1,
                    (es.last().0, EntryData::Bytes(b + data@)),
                ),
                EntryData::Text(_) => true,
            }
        }),
        r is Ok && data@.len() == 0 ==> ar_entries(*final(z)) == ar_entries(*old(z)),
{
    match z.inner.write_all(data) {
        Ok(()) => Ok(()),
        Err(_) => Err(WriterError::Package),
    }
}

/// Relies on zip::write::ZipWriter::finish and Cursor::into_inner: closes
/// the archive and hands back the package bytes.  The bytes themselves
/// embed compression output and a clock-dependent timestamp, so nothing
/// is stated of them.
#[verifier::external_body]
fn zip_finish(z: &mut PackageArchive) -> (r: Result<Vec<u8>, WriterError>)
{
    match z.inner.finish() {
        Ok(c) => Ok(c.into_inner()),
        Err(_) => Err(WriterError::Package),
    }
}

/// The first position at or after `i` of an asset with the given path.
pub open spec fn first_asset_idx(images: Seq<ImageAsset>, p: Seq<char>, i: int) -> int
    decreases images.len() + 1 - i,
{
    if i < 0 || i >= images.len() {
        -1
    } else if images[i].path@ == p {
        i
    } else {
        first_asset_idx(images, p, i + 1)
    }
}

/// What `first_asset_idx` finds: a matching position exactly when one of
/// the assets carries the path.
pub proof fn lemma_first_asset_idx(images: Seq<ImageAsset>, p: Seq<char>, i: int)
    requires
        0 <= i,
    ensures
        first_asset_idx(images, p, i) == -1 || i <= first_asset_idx(images, p, i) < images.len(),
        first_asset_idx(images, p, i) >= 0 ==> images[first_asset_idx(images, p, i)].path@ == p,
        first_asset_idx(images, p, i) == -1 ==> forall|j: int|
            i <= j < images.len() ==> (#[trigger] images[j]).path@ != p,
    decreases images.len() + 1 - i,
{
    if i < images.len() && images[i].path@ != p {
        lemma_first_asset_idx(images, p, i + 1);
    }
}

/// The bytes of the first asset with the given path, or empty when none
/// carries it.
pub open spec fn first_asset_bytes(images: Seq<ImageAsset>, p: Seq<char>) -> Seq<u8> {
    let i = first_asset_idx(images, p, 0);
    if i >= 0 {
        images[i].bytes@
    } else {
        Seq::empty()
    }
}

/// The bytes of the first asset with the given path, when one exists.
fn find_asset_bytes<'a>(images: &'a Vec<ImageAsset>, p: &String) -> (r: Option<&'a Vec<u8>>)
    ensures
        match r {
            Some(b) => first_asset_idx(images@, p@, 0) >= 0 && b@ == first_asset_bytes(
                images@,
                p@,
            ),
            None => first_asset_idx(images@, p@, 0) == -1,
        },
{
    let mut j: usize = 0;
    while j < images.len()
        invariant
            j <= images@.len(),
            first_asset_idx(images@, p@, 0) == first_asset_idx(images@, p@, j as int),
        decreases images@.len() - j,
    {
        if images[j].path.eq(p) {
            proof {
                assert(first_asset_idx(images@, p@, j as int) == j);
            }
            return Some(&images[j].bytes);
        }
        proof {
            assert(first_asset_idx(images@, p@, j as int) == first_asset_idx(
                images@,
                p@,
                j + 1,
            ));
        }
        j = j + 1;
    }
    None
}

/// Every path the plan keeps was resolvable: the deduplication only
/// admits paths of the available assets.
pub proof fn lemma_dedup_in_avail(
    refs: Seq<Seq<char>>,
    avail: Seq<Seq<char>>,
    i: int,
    acc: Seq<Seq<char>>,
)
    requires
        forall|k: int| 0 <= k < acc.len() ==> path_in(avail, #[trigger] acc[k]),
    ensures
        forall|k: int|
            0 <= k < dedup_rec(refs, avail, i, acc).len() ==> path_in(
                avail,
                #[trigger] dedup_rec(refs, avail, i, acc)[k],
            ),
    decreases refs.len() + 1 - i,
{
    if 0 <= i < refs.len() {
        let p = refs[i];
        if path_in(avail, p) && !path_in(acc, p) {
            assert forall|k: int| 0 <= k < acc.push(p).len() implies path_in(
                avail,
                #[trigger] acc.push(p)[k],
            ) by {
                if k < acc.len() {
                    assert(acc.push(p)[k] == acc[k]);
                } else {
                    assert(acc.push(p)[k] == p);
                }
            }
            lemma_dedup_in_avail(refs, avail, i + 1, acc.push(p));
            assert(dedup_rec(refs, avail, i, acc) == dedup_rec(refs, avail, i + 1, acc.push(p)));
        } else {
            lemma_dedup_in_avail(refs, avail, i + 1, acc);
            assert(dedup_rec(refs, avail, i, acc) == dedup_rec(refs, avail, i + 1, acc));
        }
    } else {
        assert(dedup_rec(refs, avail, i, acc) == acc);
    }
}

/// The six fixed parts of the package, with the exact texts the
/// generators produce.
pub open spec fn spec_base_entries(w: ExamWriter, rels: Seq<ImageRel>) -> Seq<(Seq<char>,
    EntryData,
)> {
    seq![
        ("[Content_Types].xml"@, EntryData::Text(XML_CONTENT_TYPES@)),
        ("_rels/.rels"@, EntryData::Text(XML_ROOT_RELS@)),
        (
            "word/document.xml"@,
            EntryData::Text(
                XML_DOC_HEAD@ + spec_header_xml(
                    w.exam_title@,
                    w.exam_code@,
                    w.subject@,
                    w.duration_minutes as nat,
                ) + spec_questions_xml(w.questions@, rels, 0) + spec_sectpr_xml() + XML_DOC_TAIL@,
            ),
        ),
        (
            "word/_rels/document.xml.rels"@,
            EntryData::Text(XML_DOC_RELS_HEAD@ + spec_rels_entries(rels) + XML_DOC_RELS_TAIL@),
        ),
        ("word/styles.xml"@, EntryData::Text(XML_STYLES@)),
        ("word/footer1.xml"@, EntryData::Text(XML_FOOTER@)),
    ]
}

/// The media entries for the first `i` planned images: each stored under
/// `word/` and its media name, holding the resolved asset's bytes (an
/// asset with no bytes leaves its entry empty).
pub open spec fn spec_media_entries(
    rels: Seq<ImageRel>,
    images: Seq<ImageAsset>,
    i: int,
) -> Seq<(Seq<char>, EntryData)>
    decreases i + 1,
{
    if i <= 0 {
        Seq::empty()
    } else {
        spec_media_entries(rels, images, i - 1) + seq![
            (
                "word/"@ + rels[i - 1].media_name@,
                if first_asset_bytes(images, rels[i - 1].path@).len() == 0 {
                    EntryData::Empty
                } else {
                    EntryData::Bytes(first_asset_bytes(images, rels[i - 1].path@))
                },
            ),
        ]
    }
}

/// The whole package: the six fixed parts, then one media entry per
/// planned image.
pub open spec fn spec_package_entries(
    w: ExamWriter,
    rels: Seq<ImageRel>,
    images: Seq<ImageAsset>,
) -> Seq<(Seq<char>, EntryData)> {
    spec_base_entries(w, rels) + spec_media_entries(rels, images, rels.len() as int)
}

impl ExamWriter {
    /// Assemble the package archive against the planned image
    /// relationships: on success the archive holds exactly the six fixed
    /// parts with the generators' texts, then one `word/<media name>`
    /// entry per planned image carrying the first matching asset's bytes.
    /// Any failure while writing a package entry aborts the whole export.
    pub fn assemble_package(&self, images: &Vec<ImageAsset>, rels: &Vec<ImageRel>) -> (r: Result<
        PackageArchive,
        WriterError,
    >)
        requires
            forall|k: int|
                0 <= k < rels@.len() ==> path_in(
                    images@.map_values(|a: ImageAsset| a.path@),
                    (#[trigger] rels@[k]).path@,
                ),
        ensures
            match r {
                Ok(z) => ar_entries(z) == spec_package_entries(*self, rels@, images@),
                Err(_) => true,
            },
    {
        let mut z = zip_new();
        match zip_start_file(&mut z, "[Content_Types].xml") {
            Ok(_) => {},
            Err(_) => {
                return Err(WriterError::Package);
            },
        }
        let ct = self.generate_content_types();
        if ct.as_str().unicode_len() == 0 {
            return Err(WriterError::Package);
        }
        match zip_write_text(&mut z, ct.as_str()) {
            Ok(_) => {},
            Err(_) => {
                return Err(WriterError::Package);
            },
        }
        proof {
            assert(ar_entries(z) =~= spec_base_entries(*self, rels@).take(1));
        }
        match zip_start_file(&mut z, "_rels/.rels") {
            Ok(_) => {},
            Err(_) => {
                return Err(WriterError::Package);
            },
        }
        let rr = self.generate_root_rels();
        if rr.as_str().unicode_len() == 0 {
            return Err(WriterError::Package);
        }
        match zip_write_text(&mut z, rr.as_str()) {
            Ok(_) => {},
            Err(_) => {
                return Err(WriterError::Package);
            },
        }
        proof {
            assert(ar_entries(z) =~= spec_base_entries(*self, rels@).take(2));
        }
        match zip_start_file(&mut z, "word/document.xml") {
            Ok(_) => {},
            Err(_) => {
                return Err(WriterError::Package);
            },
        }
        let doc = self.generate_document_xml(rels);
        if doc.as_str().unicode_len() == 0 {
            return Err(WriterError::Package);
        }
        match zip_write_text(&mut z, doc.as_str()) {
            Ok(_) => {},
            Err(_) => {
                return Err(WriterError::Package);
            },
        }
        proof {
            assert(ar_entries(z) =~= spec_base_entries(*self, rels@).take(3));
        }
        match zip_start_file(&mut z, "word/_rels/document.xml.rels") {
            Ok(_) => {},
            Err(_) => {
                return Err(WriterError::Package);
            },
        }
        let dr = self.generate_document_rels(rels);
        if dr.as_str().unicode_len() == 0 {
            return Err(WriterError::Package);
        }
        match zip_write_text(&mut z, dr.as_str()) {
            Ok(_) => {},
            Err(_) => {
                return Err(WriterError::Package);
            },
        }
        proof {
            assert(ar_entries(z) =~= spec_base_entries(*self, rels@).take(4));
        }
        match zip_start_file(&mut z, "word/styles.xml") {
            Ok(_) => {},
            Err(_) => {
                return Err(WriterError::Package);
            },
        }
        let st = self.generate_styles_xml();
        if st.as_str().unicode_len() == 0 {
            return Err(WriterError::Package);
        }
        match zip_write_text(&mut z, st.as_str()) {
            Ok(_) => {},
            Err(_) => {
                return Err(WriterError::Package);
            },
        }
        proof {
            assert(ar_entries(z) =~= spec_base_entries(*self, rels@).take(5));
        }
        match zip_start_file(&mut z, "word/footer1.xml") {
            Ok(_) => {},
            Err(_) => {
                return Err(WriterError::Package);
            },
        }
        let ft = self.generate_footer();
        if ft.as_str().unicode_len() == 0 {
            return Err(WriterError::Package);
        }
        match zip_write_text(&mut z, ft.as_str()) {
            Ok(_) => {},
            Err(_) => {
                return Err(WriterError::Package);
            },
        }
        proof {
            assert(ar_entries(z) =~= spec_base_entries(*self, rels@));
        }
        let ghost base = spec_base_entries(*self, rels@);
        let mut i: usize = 0;
        while i < rels.len()
            invariant
                i <= rels@.len(),
                forall|k: int|
                    0 <= k < rels@.len() ==> path_in(
                        images@.map_values(|a: ImageAsset| a.path@),
                        (#[trigger] rels@[k]).path@,
                    ),
                base == spec_base_entries(*self, rels@),
                ar_entries(z) == base + spec_media_entries(rels@, images@, i as int),
            decreases rels@.len() - i,
        {
            proof {
                let ps = images@.map_values(|a: ImageAsset| a.path@);
                assert(path_in(ps, rels@[i as int].path@));
                let w = choose|j: int| 0 <= j < ps.len() && #[trigger] ps[j] == rels@[i as int].path@;
                assert(ps[w] == images@[w].path@);
                lemma_first_asset_idx(images@, rels@[i as int].path@, 0);
            }
            let bytes = match find_asset_bytes(images, &rels[i].path) {
                Some(bytes) => bytes,
                None => {
                    proof {
                        assert(false);
                    }
                    return Err(WriterError::Package);
                },
            };
            let mut nm = String::from_str("word/");
            nm.append(rels[i].media_name.as_str());
            match zip_start_file(&mut z, nm.as_str()) {
                Ok(_) => {},
                Err(_) => {
                    return Err(WriterError::Package);
                },
            }
            match zip_write_bytes(&mut z, bytes.as_slice()) {
                Ok(_) => {},
                Err(_) => {
                    return Err(WriterError::Package);
                },
            }
            proof {
                assert(ar_entries(z) =~= base + spec_media_entries(rels@, images@, i + 1));
            }
            i = i + 1;
        }
        Ok(z)
    }

    /// Build the package bytes: plan the image relationships, assemble the
    /// archive (whose entries `assemble_package` fixes exactly), and close
    /// it.  The final bytes embed compression output and a timestamp, so
    /// only the assembly is specified.
    pub fn build_package(&self, images: &Vec<ImageAsset>) -> (r: Result<Vec<u8>, WriterError>)
        requires
            qs_img_paths(self.questions@).len() + 3 < 0x1_0000_0000,
    {
        let rels = plan_image_rels(&self.questions, images);
        proof {
            lemma_dedup_in_avail(
                qs_img_paths(self.questions@),
                images@.map_values(|a: ImageAsset| a.path@),
                0,
                Seq::empty(),
            );
            assert forall|k: int| 0 <= k < rels@.len() implies path_in(
                images@.map_values(|a: ImageAsset| a.path@),
                (#[trigger] rels@[k]).path@,
            ) by {
                assert(rels_paths(rels@)[k] == rels@[k].path@);
            }
        }
        let mut z = match self.assemble_package(images, &rels) {
            Ok(z) => z,
            Err(e) => {
                return Err(e);
            },
        };
        zip_finish(&mut z)
    }
}

/// Escaping decomposes from the front as well.
proof fn lemma_escape_front(s: Seq<char>)
    requires
        s.len() > 0,
    ensures
        spec_escape(s) == esc_char(s[0]) + spec_escape(s.drop_first()),
    decreases s.len(),
{
    if s.len() == 1 {
        assert(s.drop_last() =~= Seq::<char>::empty());
        assert(s.drop_first() =~= Seq::<char>::empty());
        assert(spec_escape(s) =~= esc_char(s[0]) + spec_escape(s.drop_first()));
    } else {
        let head = s.drop_last();
        lemma_escape_front(head);
        assert(head[0] == s[0]);
        assert(s.drop_first().drop_last() =~= head.drop_first());
        assert(s.drop_first().last() == s.last());
        assert(spec_escape(s.drop_first()) == spec_escape(s.drop_first().drop_last()) + esc_char(
            s.drop_first().last(),
        ));
        assert(spec_escape(s) =~= esc_char(s[0]) + spec_escape(s.drop_first()));
    }
}

/// Escaping loses nothing: decoding an escaped text gives the text back
/// exactly.  This is the character-level piece of the write-then-parse
/// round trip: a text run the writer emits reads back as the same text.
pub proof fn lemma_escape_round_trip(s: Seq<char>)
    ensures
        xml_unescape(spec_escape(s)) == s,
    decreases s.len(),
{
    if s.len() == 0 {
        assert(spec_escape(s) =~= Seq::<char>::empty());
        assert(xml_unescape(spec_escape(s)) =~= s);
    } else {
        lemma_escape_front(s);
        lemma_escape_round_trip(s.drop_first());
        let c = s[0];
        let rest = spec_escape(s.drop_first());
        let t = esc_char(c) + rest;
        assert(spec_escape(s) == t);
        if c == '&' {
            assert(is_at(t, 0, ent_amp())) by {
                assert(t.subrange(0, 5) =~= ent_amp());
            }
            assert(!is_at(t, 0, ent_lt())) by {
                if is_at(t, 0, ent_lt()) {
                    assert(t.subrange(0, 4)[1] == t[1]);
                }
            }
            assert(!is_at(t, 0, ent_gt())) by {
                if is_at(t, 0, ent_gt()) {
                    assert(t.subrange(0, 4)[1] == t[1]);
                }
            }
            assert(t.skip(5) =~= rest);
            assert(xml_unescape(t) == seq!['&'] + xml_unescape(rest));
            assert(xml_unescape(spec_escape(s)) =~= s);
        } else if c == '<' {
            assert(is_at(t, 0, ent_lt())) by {
                assert(t.subrange(0, 4) =~= ent_lt());
            }
            assert(t.skip(4) =~= rest);
            assert(xml_unescape(t) == seq!['<'] + xml_unescape(rest));
            assert(xml_unescape(spec_escape(s)) =~= s);
        } else if c == '>' {
            assert(!is_at(t, 0, ent_lt())) by {
                if is_at(t, 0, ent_lt()) {
                    assert(t.subrange(0, 4)[1] == t[1]);
                }
            }
            assert(is_at(t, 0, ent_gt())) by {
                assert(t.subrange(0, 4) =~= ent_gt());
            }
            assert(t.skip(4) =~= rest);
            assert(xml_unescape(t) == seq!['>'] + xml_unescape(rest));
            assert(xml_unescape(spec_escape(s)) =~= s);
        } else {
            assert(t[0] == c);
            assert(!is_at(t, 0, ent_lt())) by {
                if is_at(t, 0, ent_lt()) {
                    assert(t.subrange(0, 4)[0] == t[0]);
                }
            }
            assert(!is_at(t, 0, ent_gt())) by {
                if is_at(t, 0, ent_gt()) {
                    assert(t.subrange(0, 4)[0] == t[0]);
                }
            }
            assert(!is_at(t, 0, ent_amp())) by {
                if is_at(t, 0, ent_amp()) {
                    assert(t.subrange(0, 5)[0] == t[0]);
                }
            }
            assert(t.skip(1) =~= rest);
            assert(xml_unescape(t) == seq![c] + xml_unescape(rest));
            assert(xml_unescape(spec_escape(s)) =~= s);
        }
    }
}

} // verus!
