//! The mathematical form of decoding: for each payload kind a relation that
//! holds exactly when the given bytes decode to the given value.  `b` is
//! always one section's own byte span (tag at 0, length at 4, payload from
//! 8), and every stored offset is followed within that span, so a section's
//! meaning does not depend on where in the file it sits.
//!
//! The relations pin every field of the value from the bytes alone, which
//! makes decoding deterministic, and they require the value to be well
//! formed, so whatever decodes can be encoded again.

use vstd::prelude::*;

use crate::bytes::{align4, le16_at, le32_at, nul_free};
use crate::encoding::{sec_wf, file_wf};
use crate::model::{
    known_tag, BflytFile, BflytSection, ResAnimationInfo, ResColorTest, ResLineWidths,
    ResPaneTest, ResPartsProperty, ResPartsTest, ResPerCharacterTransform,
    ResPictureTest, ResTexCoordQuad, ResTextBoxTest, ResVec2Test, ResVec3Test, TextureListInner,
    BYTE_ORDER_LITTLE, MAGIC_FLYT, TAG_BND1, TAG_FNL1, TAG_GRE1, TAG_GRP1, TAG_GRS1, TAG_LYT1,
    TAG_MAT1, TAG_PAE1, TAG_PAN1, TAG_PAS1, TAG_PIC1, TAG_PRT1, TAG_TXL1, TAG_TXT1, TAG_USD1,
    TAG_WND1,
};

verus! {

pub open spec fn color_at(b: Seq<u8>, i: int) -> ResColorTest {
    ResColorTest { r: b[i], g: b[i + 1], b: b[i + 2], a: b[i + 3] }
}

pub open spec fn vec2_at(b: Seq<u8>, i: int) -> ResVec2Test {
    ResVec2Test { x: le32_at(b, i), y: le32_at(b, i + 4) }
}

pub open spec fn vec3_at(b: Seq<u8>, i: int) -> ResVec3Test {
    ResVec3Test { x: le32_at(b, i), y: le32_at(b, i + 4), z: le32_at(b, i + 8) }
}

pub open spec fn quad_at(b: Seq<u8>, i: int) -> ResTexCoordQuad {
    ResTexCoordQuad {
        tl: vec2_at(b, i),
        tr: vec2_at(b, i + 8),
        bl: vec2_at(b, i + 16),
        br: vec2_at(b, i + 24),
    }
}

pub open spec fn per_char_at(b: Seq<u8>, i: int) -> ResPerCharacterTransform {
    ResPerCharacterTransform {
        eval_time_offset: le32_at(b, i),
        eval_time_width: le32_at(b, i + 4),
        loop_type: b[i + 8],
        origin_v: b[i + 9],
        has_animation_info: b[i + 10],
        padding: b[i + 11],
    }
}

/// The 76-byte common pane block decodes at position `i`.
pub open spec fn pane_parses(b: Seq<u8>, i: int, p: ResPaneTest) -> bool {
    &&& i + 76 <= b.len()
    &&& p.flag == b[i]
    &&& p.base_position == b[i + 1]
    &&& p.alpha == b[i + 2]
    &&& p.flag_ex == b[i + 3]
    &&& p.name@ == b.subrange(i + 4, i + 28)
    &&& p.user_data@ == b.subrange(i + 28, i + 36)
    &&& p.pos == vec3_at(b, i + 36)
    &&& p.rot_x == le32_at(b, i + 48)
    &&& p.rot_y == le32_at(b, i + 52)
    &&& p.rot_z == le32_at(b, i + 56)
    &&& p.scale_x == le32_at(b, i + 60)
    &&& p.scale_y == le32_at(b, i + 64)
    &&& p.size_x == le32_at(b, i + 68)
    &&& p.size_y == le32_at(b, i + 72)
}

/// A NUL-terminated string of content `s` sits at position `start`.
pub open spec fn string_at(b: Seq<u8>, start: int, s: Seq<u8>) -> bool {
    &&& 0 <= start
    &&& start + s.len() + 1 <= b.len()
    &&& s == b.subrange(start, start + s.len() as int)
    &&& nul_free(s)
    &&& b[start + s.len() as int] == 0
}

/// Only one string can sit at a given position.
pub proof fn lemma_string_at_unique(b: Seq<u8>, start: int, s1: Seq<u8>, s2: Seq<u8>)
    requires
        string_at(b, start, s1),
        string_at(b, start, s2),
    ensures
        s1 == s2,
{
    if s1.len() < s2.len() {
        assert(s2[s1.len() as int] == b[start + s1.len()]);
        assert(false);
    } else if s2.len() < s1.len() {
        assert(s1[s2.len() as int] == b[start + s2.len()]);
        assert(false);
    } else {
        assert(s1 =~= s2);
    }
}

/// `txl1` payload: the count, then the offset table, each offset measured
/// from the position immediately following the offset array, each target a
/// NUL-terminated string inside the section.
pub open spec fn texlist_parses(b: Seq<u8>, t: TextureListInner) -> bool {
    let cnt = le32_at(b, 8) as int;
    &&& 12 <= b.len()
    &&& t.texture_names@.len() == cnt
    &&& 12 + 4 * cnt <= b.len()
    &&& forall|j: int|
        0 <= j < cnt ==> string_at(
            b,
            12 + 4 * cnt + (le32_at(b, 12 + 4 * j) as int),
            #[trigger] t.texture_names@[j]@,
        )
}

/// `pic1` payload.
pub open spec fn picture_parses(b: Seq<u8>, p: ResPictureTest) -> bool {
    let cnt = b[102] as int;
    &&& 104 <= b.len()
    &&& pane_parses(b, 8, p.pane)
    &&& p.vtx_cols@.len() == 4
    &&& forall|j: int| 0 <= j < 4 ==> #[trigger] p.vtx_cols@[j] == color_at(b, 84 + 4 * j)
    &&& p.material_idx == le16_at(b, 100)
    &&& p.tex_coords@.len() == cnt
    &&& p.flags == b[103]
    &&& b.len() == 104 + 32 * cnt
    &&& forall|j: int| 0 <= j < cnt ==> #[trigger] p.tex_coords@[j] == quad_at(b, 104 + 32 * j)
}

/// The line-width table at `off`: count byte, line offsets, line widths.
pub open spec fn lw_parses(b: Seq<u8>, off: int, lw: ResLineWidths) -> bool {
    let cnt = b[off] as int;
    &&& 0 <= off
    &&& off + 1 <= b.len()
    &&& off + 1 + 8 * cnt <= b.len()
    &&& lw.line_offset@.len() == cnt
    &&& lw.line_width@.len() == cnt
    &&& forall|j: int| 0 <= j < cnt ==> #[trigger] lw.line_offset@[j] == le32_at(b, off + 1 + 4 * j)
    &&& forall|j: int|
        0 <= j < cnt ==> #[trigger] lw.line_width@[j] == le32_at(b, off + 1 + 4 * cnt + 4 * j)
}

/// The per-character transform block at `off`: the 12-byte transform, then
/// the 8-byte animation info.
pub open spec fn pct_parses(
    b: Seq<u8>,
    off: int,
    p: ResPerCharacterTransform,
    a: ResAnimationInfo,
) -> bool {
    &&& 0 <= off
    &&& off + 20 <= b.len()
    &&& p == per_char_at(b, off)
    &&& a.kind == le32_at(b, off + 12)
    &&& a.count == b[off + 16]
    &&& a.padding@ == b.subrange(off + 17, off + 20)
}

/// `txt1` payload: the fixed fields, then each conditional block located by
/// its stored offset; a zero offset means the block is absent.
pub open spec fn textbox_parses(b: Seq<u8>, t: ResTextBoxTest) -> bool {
    let text_len = le16_at(b, 84) as int;
    let text_off = le32_at(b, 100) as int;
    let id_off = le32_at(b, 128) as int;
    let lw_off = le32_at(b, 160) as int;
    let pct_off = le32_at(b, 164) as int;
    &&& 168 <= b.len()
    &&& pane_parses(b, 8, t.pane)
    &&& t.text@.len() == text_len
    &&& t.text_str_bytes == le16_at(b, 86)
    &&& t.material_idx == le16_at(b, 88)
    &&& t.font_idx == le16_at(b, 90)
    &&& t.text_position == b[92]
    &&& t.text_alignment == b[93]
    &&& t.text_box_flag == le16_at(b, 94)
    &&& t.italic_ratio == le32_at(b, 96)
    &&& text_off + text_len <= b.len()
    &&& 0 <= text_off
    &&& t.text@ == b.subrange(text_off, text_off + text_len)
    &&& t.text_cols@.len() == 2
    &&& t.text_cols@[0] == color_at(b, 104)
    &&& t.text_cols@[1] == color_at(b, 108)
    &&& t.font_size == vec2_at(b, 112)
    &&& t.char_space == le32_at(b, 120)
    &&& t.line_space == le32_at(b, 124)
    &&& match t.text_id {
        None => id_off == 0,
        Some(id) => id_off != 0 && string_at(b, id_off, id@),
    }
    &&& t.shadow_offset == vec2_at(b, 132)
    &&& t.shadow_scale == vec2_at(b, 140)
    &&& t.shadow_cols@.len() == 2
    &&& t.shadow_cols@[0] == color_at(b, 148)
    &&& t.shadow_cols@[1] == color_at(b, 152)
    &&& t.shadow_italic_ratio == le32_at(b, 156)
    &&& match t.line_widths {
        None => lw_off == 0,
        Some(lw) => lw_off != 0 && lw_parses(b, lw_off, lw),
    }
    &&& match (t.per_character_transform, t.per_character_transform_animation_info) {
        (None, None) => pct_off == 0,
        (Some(p), Some(a)) => pct_off != 0 && pct_parses(b, pct_off, p, a),
        _ => false,
    }
}

/// The section-relative position just after the last nested section a
/// `prt1` property table points at; `cur` when no property has an offset.
/// Reads `n` 40-byte property records starting at `hpos`.
pub open spec fn last_nested_end(b: Seq<u8>, n: int, hpos: int, cur: int) -> int
    decreases n,
{
    if n <= 0 {
        cur
    } else {
        let o1 = le32_at(b, hpos + 28) as int;
        let o2 = le32_at(b, hpos + 32) as int;
        let o3 = le32_at(b, hpos + 36) as int;
        let c1: int = if o1 != 0 {
            o1 + le32_at(b, o1 + 4)
        } else {
            cur
        };
        let c2: int = if o2 != 0 {
            o2 + le32_at(b, o2 + 4)
        } else {
            c1
        };
        let c3: int = if o3 != 0 {
            o3 + le32_at(b, o3 + 4)
        } else {
            c2
        };
        last_nested_end(b, n - 1, hpos + 40, c3)
    }
}

/// A whole section of value `s` sits at position `pos`: its declared span
/// lies inside the buffer and parses as `s`.
pub open spec fn section_at(b: Seq<u8>, pos: int, s: BflytSection) -> bool
    decreases s, 7int,
{
    &&& 0 <= pos
    &&& pos + 8 <= b.len()
    &&& {
        let sz = le32_at(b, pos + 4) as int;
        pos + sz <= b.len() && section_parses(b.subrange(pos, pos + sz), s)
    }
}

/// A whole nested section of value `s` sits at section-relative `off`.
pub open spec fn nested_section_at(b: Seq<u8>, off: int, s: BflytSection) -> bool
    decreases s, 8int,
{
    0 < off && section_at(b, off, s)
}

/// One optional nested slot: a zero stored offset means absent.
pub open spec fn opt_nested_parses(b: Seq<u8>, off: int, o: Option<Box<BflytSection>>) -> bool
    decreases o, 9int,
{
    match o {
        None => off == 0,
        Some(bx) => off != 0 && nested_section_at(b, off, *bx),
    }
}

/// One 40-byte property record at `hpos`, with its three nested slots.
pub open spec fn prop_parses(b: Seq<u8>, hpos: int, p: ResPartsProperty) -> bool
    decreases p, 10int,
{
    &&& p.name@ == b.subrange(hpos, hpos + 24)
    &&& p.usage_flag == b[hpos + 24]
    &&& p.basic_usage_flag == b[hpos + 25]
    &&& p.material_usage_flag == b[hpos + 26]
    &&& p.system_ext_user_data_override_flag == b[hpos + 27]
    &&& opt_nested_parses(b, le32_at(b, hpos + 28) as int, p.property)
    &&& opt_nested_parses(b, le32_at(b, hpos + 32) as int, p.ext_user_data)
    &&& opt_nested_parses(b, le32_at(b, hpos + 36) as int, p.pane_basic_info)
}

/// The property records from `hpos` on.
pub open spec fn props_parse(b: Seq<u8>, hpos: int, props: Seq<ResPartsProperty>) -> bool
    decreases props, 11int,
{
    if props.len() == 0 {
        true
    } else {
        prop_parses(b, hpos, props[0]) && props_parse(
            b,
            hpos + 40,
            props.subrange(1, props.len() as int),
        )
    }
}

/// `prt1` payload: pane block, property count, magnify, property table,
/// NUL-terminated part name; the bytes consumed by the nested sections must
/// end exactly at the declared section length.
pub open spec fn part_parses(b: Seq<u8>, part: ResPartsTest) -> bool
    decreases part, 12int,
{
    let cnt = le32_at(b, 84) as int;
    let name_pos = 96 + 40 * cnt;
    &&& 96 <= b.len()
    &&& pane_parses(b, 8, part.pane)
    &&& part.properties@.len() == cnt
    &&& part.magnify == vec2_at(b, 88)
    &&& 96 + 40 * cnt <= b.len()
    &&& props_parse(b, 96, part.properties@)
    &&& string_at(b, name_pos, part.part_name@)
    &&& last_nested_end(
        b,
        cnt,
        96,
        align4(name_pos + part.part_name@.len() + 1),
    ) == b.len()
}

/// One whole section: `b` is exactly its byte span.  The declared length
/// must equal the span, a known tag must decode to its typed payload, an
/// unknown tag keeps its raw payload, and the value is well formed.
pub open spec fn section_parses(b: Seq<u8>, s: BflytSection) -> bool
    decreases s, 6int,
{
    let tag = le32_at(b, 0);
    &&& 8 <= b.len()
    &&& b.len() <= 0xFFFF_FFFF
    &&& le32_at(b, 4) == b.len()
    &&& sec_wf(s)
    &&& match s {
        BflytSection::Pane { pane } => tag == TAG_PAN1 && b.len() == 84 && pane_parses(b, 8, pane),
        BflytSection::TextureList { texture_list } => tag == TAG_TXL1 && texlist_parses(
            b,
            texture_list,
        ),
        BflytSection::Picture { picture } => tag == TAG_PIC1 && picture_parses(b, picture),
        BflytSection::TextBox { text_box } => tag == TAG_TXT1 && textbox_parses(b, *text_box),
        BflytSection::Part { part } => tag == TAG_PRT1 && part_parses(b, part),
        BflytSection::Material { data } => tag == TAG_MAT1 && data@ == b.subrange(8, b.len() as int),
        BflytSection::Window { data } => tag == TAG_WND1 && data@ == b.subrange(8, b.len() as int),
        BflytSection::PaneStart => tag == TAG_PAS1 && b.len() == 8,
        BflytSection::PaneEnd => tag == TAG_PAE1 && b.len() == 8,
        BflytSection::Group { data } => tag == TAG_GRP1 && data@ == b.subrange(8, b.len() as int),
        BflytSection::GroupStart => tag == TAG_GRS1 && b.len() == 8,
        BflytSection::GroupEnd => tag == TAG_GRE1 && b.len() == 8,
        BflytSection::Bounding { data } => tag == TAG_BND1 && data@ == b.subrange(
            8,
            b.len() as int,
        ),
        BflytSection::Layout { data } => tag == TAG_LYT1 && data@ == b.subrange(8, b.len() as int),
        BflytSection::FontList { data } => tag == TAG_FNL1 && data@ == b.subrange(
            8,
            b.len() as int,
        ),
        BflytSection::UserDataList { data } => tag == TAG_USD1 && data@ == b.subrange(
            8,
            b.len() as int,
        ),
        BflytSection::Unknown { tag: t, data } => t == tag && !known_tag(tag) && data@
            == b.subrange(8, b.len() as int),
    }
}

/// Nesting depth of a section value: how many levels of nested sections a
/// decoder must descend through.
pub open spec fn sec_depth(s: BflytSection) -> int
    decreases s, 13int,
{
    match s {
        BflytSection::Part { part } => props_depth(part.properties@),
        _ => 0,
    }
}

pub open spec fn opt_depth(o: Option<Box<BflytSection>>) -> int
    decreases o, 9int,
{
    match o {
        None => 0,
        Some(bx) => 1 + sec_depth(*bx),
    }
}

pub open spec fn props_depth(props: Seq<ResPartsProperty>) -> int
    decreases props, 11int,
{
    if props.len() == 0 {
        0
    } else {
        let d0 = opt_depth(props[0].property);
        let d1 = opt_depth(props[0].ext_user_data);
        let d2 = opt_depth(props[0].pane_basic_info);
        let dr = props_depth(props.subrange(1, props.len() as int));
        let m1: int = if d0 >= d1 {
            d0
        } else {
            d1
        };
        let m2: int = if m1 >= d2 {
            m1
        } else {
            d2
        };
        if m2 >= dr {
            m2
        } else {
            dr
        }
    }
}

/// The sections of a file, parsed back to back from `pos`.
pub open spec fn sections_parse(b: Seq<u8>, pos: int, secs: Seq<BflytSection>) -> bool
    decreases secs, 13int,
{
    if secs.len() == 0 {
        true
    } else {
        let sz = le32_at(b, pos + 4) as int;
        &&& 0 <= pos
        &&& pos + 8 <= b.len()
        &&& pos + sz <= b.len()
        &&& section_parses(b.subrange(pos, pos + sz), secs[0])
        &&& sections_parse(b, pos + sz, secs.subrange(1, secs.len() as int))
    }
}

/// The position just after the last of `secs` when they parse back to back
/// from `pos`.
pub open spec fn secs_end(b: Seq<u8>, pos: int, secs: Seq<BflytSection>) -> int
    decreases secs, 13int,
{
    if secs.len() == 0 {
        pos
    } else {
        secs_end(b, pos + le32_at(b, pos + 4) as int, secs.subrange(1, secs.len() as int))
    }
}

/// A whole layout file: magic, little-endian sentinel, header fields, the
/// stored total size matching the buffer, then exactly the declared number
/// of sections filling the rest of the buffer.
pub open spec fn file_parses(b: Seq<u8>, f: BflytFile) -> bool {
    &&& 20 <= b.len()
    &&& b.len() <= 0xFFFF_FFFF
    &&& le32_at(b, 0) == MAGIC_FLYT
    &&& le16_at(b, 4) == BYTE_ORDER_LITTLE
    &&& f.header.header_size == le16_at(b, 6)
    &&& f.header.version == le32_at(b, 8)
    &&& le32_at(b, 12) == b.len()
    &&& f.sections@.len() == le16_at(b, 16)
    &&& f.header.padding == le16_at(b, 18)
    &&& file_wf(f)
    &&& sections_parse(b, 20, f.sections@)
    &&& secs_end(b, 20, f.sections@) == b.len()
}

/// Extending a back-to-back parse by one section at its end position.
pub proof fn lemma_sections_parse_snoc(b: Seq<u8>, pos: int, secs: Seq<BflytSection>, s: BflytSection)
    requires
        sections_parse(b, pos, secs),
        0 <= secs_end(b, pos, secs),
        secs_end(b, pos, secs) + 8 <= b.len(),
        secs_end(b, pos, secs) + le32_at(b, secs_end(b, pos, secs) + 4) as int <= b.len(),
        section_parses(
            b.subrange(
                secs_end(b, pos, secs),
                secs_end(b, pos, secs) + le32_at(b, secs_end(b, pos, secs) + 4) as int,
            ),
            s,
        ),
    ensures
        sections_parse(b, pos, secs + seq![s]),
        secs_end(b, pos, secs + seq![s]) == secs_end(b, pos, secs) + le32_at(
            b,
            secs_end(b, pos, secs) + 4,
        ) as int,
    decreases secs.len(),
{
    let w = secs + seq![s];
    if secs.len() == 0 {
        let sz = le32_at(b, pos + 4) as int;
        assert(w[0] == s);
        assert(w.subrange(1, w.len() as int) =~= Seq::<BflytSection>::empty());
        assert(sections_parse(b, pos + sz, Seq::<BflytSection>::empty()));
        assert(secs_end(b, pos + sz, Seq::<BflytSection>::empty()) == pos + sz);
        assert(sections_parse(b, pos, w));
        assert(secs_end(b, pos, w) == pos + sz);
    } else {
        let sz = le32_at(b, pos + 4) as int;
        assert(w[0] == secs[0]);
        assert(w.subrange(1, w.len() as int) =~= secs.subrange(1, secs.len() as int) + seq![s]);
        lemma_sections_parse_snoc(b, pos + sz, secs.subrange(1, secs.len() as int), s);
    }
}


/// Extending a property-table parse by one record.
pub proof fn lemma_props_parse_snoc(
    b: Seq<u8>,
    hpos: int,
    ps: Seq<ResPartsProperty>,
    p: ResPartsProperty,
)
    requires
        props_parse(b, hpos, ps),
        prop_parses(b, hpos + 40 * ps.len(), p),
    ensures
        props_parse(b, hpos, ps + seq![p]),
    decreases ps.len(),
{
    let w = ps + seq![p];
    if ps.len() == 0 {
        assert(w[0] == p);
        assert(w.subrange(1, w.len() as int) =~= Seq::<ResPartsProperty>::empty());
        assert(props_parse(b, hpos + 40, Seq::<ResPartsProperty>::empty()));
    } else {
        assert(w[0] == ps[0]);
        assert(w.subrange(1, w.len() as int) =~= ps.subrange(1, ps.len() as int) + seq![p]);
        lemma_props_parse_snoc(b, hpos + 40, ps.subrange(1, ps.len() as int), p);
    }
}

/// Each record of a parsed property table parses at its own head position.
pub proof fn lemma_props_parse_index(b: Seq<u8>, hpos: int, ps: Seq<ResPartsProperty>, j: int)
    requires
        props_parse(b, hpos, ps),
        0 <= j < ps.len(),
    ensures
        prop_parses(b, hpos + 40 * j, ps[j]),
    decreases j,
{
    if j > 0 {
        lemma_props_parse_index(b, hpos + 40, ps.subrange(1, ps.len() as int), j - 1);
    }
}

/// Nesting depths are never negative.
pub proof fn lemma_sec_depth_nonneg(s: BflytSection)
    ensures
        sec_depth(s) >= 0,
    decreases s, 14int,
{
    match s {
        BflytSection::Part { part } => {
            lemma_props_depth_nonneg(part.properties@);
        },
        _ => {},
    }
}

pub proof fn lemma_opt_depth_nonneg(o: Option<Box<BflytSection>>)
    ensures
        opt_depth(o) >= 0,
    decreases o, 10int,
{
    match o {
        Some(bx) => {
            lemma_sec_depth_nonneg(*bx);
        },
        None => {},
    }
}

pub proof fn lemma_props_depth_nonneg(ps: Seq<ResPartsProperty>)
    ensures
        props_depth(ps) >= 0,
    decreases ps, 12int,
{
    if ps.len() > 0 {
        lemma_props_depth_nonneg(ps.subrange(1, ps.len() as int));
    }
}

/// The depth of each property's slots is bounded by the table's depth.
pub proof fn lemma_props_depth_index(ps: Seq<ResPartsProperty>, j: int)
    requires
        0 <= j < ps.len(),
    ensures
        opt_depth(ps[j].property) <= props_depth(ps),
        opt_depth(ps[j].ext_user_data) <= props_depth(ps),
        opt_depth(ps[j].pane_basic_info) <= props_depth(ps),
    decreases j,
{
    if j == 0 {
    } else {
        lemma_props_depth_index(ps.subrange(1, ps.len() as int), j - 1);
    }
}

/// A parsed section nests strictly less deeply than its span is long: each
/// nested section starts at least one byte into its parent's span.
#[verifier::rlimit(100)]
pub proof fn lemma_parse_depth(b: Seq<u8>, s: BflytSection)
    requires
        section_parses(b, s),
    ensures
        sec_depth(s) < b.len(),
    decreases s, 14int,
{
    match s {
        BflytSection::Part { part } => {
            assert(part_parses(b, part));
            lemma_props_parse_depth(b, 96, part.properties@);
        },
        _ => {},
    }
}

proof fn lemma_opt_parse_depth(b: Seq<u8>, off: int, o: Option<Box<BflytSection>>)
    requires
        opt_nested_parses(b, off, o),
        b.len() >= 1,
    ensures
        opt_depth(o) <= b.len() - 1,
    decreases o, 10int,
{
    match o {
        Some(bx) => {
            let sz = le32_at(b, off + 4) as int;
            lemma_parse_depth(b.subrange(off, off + sz), *bx);
        },
        None => {},
    }
}

proof fn lemma_props_parse_depth(b: Seq<u8>, hpos: int, ps: Seq<ResPartsProperty>)
    requires
        props_parse(b, hpos, ps),
        b.len() >= 1,
    ensures
        props_depth(ps) <= b.len() - 1,
    decreases ps, 12int,
{
    if ps.len() > 0 {
        assert(prop_parses(b, hpos, ps[0]));
        lemma_opt_parse_depth(b, le32_at(b, hpos + 28) as int, ps[0].property);
        lemma_opt_parse_depth(b, le32_at(b, hpos + 32) as int, ps[0].ext_user_data);
        lemma_opt_parse_depth(b, le32_at(b, hpos + 36) as int, ps[0].pane_basic_info);
        lemma_props_parse_depth(b, hpos + 40, ps.subrange(1, ps.len() as int));
    }
}
} // verus!
