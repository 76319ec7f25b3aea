//! The mathematical form of the binary encoding: for every payload kind a
//! spec function gives the exact byte sequence of its canonical encoding,
//! and a well-formedness predicate says when a value can be encoded at all
//! (fixed-width buffers have their width, counts fit their stored field,
//! the section length fits the 32-bit length field).
//!
//! All relative offsets a section stores are measured from the section start
//! (the first byte of the tag), and trailing padding of a variable-length
//! payload takes the section length up to a multiple of four.

use vstd::prelude::*;

use crate::bytes::{align4, nul_free, pad4, u16_bytes, u32_bytes, zeros};
use crate::model::{
    known_tag, BflytFile, BflytSection, ResAnimationInfo, ResColorTest, ResPaneTest,
    ResPartsProperty, ResPartsTest, ResPerCharacterTransform,
    ResPictureTest, ResTexCoordQuad, ResTextBoxTest, ResVec2Test, ResVec3Test, TextureListInner,
    BYTE_ORDER_LITTLE, MAGIC_FLYT, TAG_BND1, TAG_FNL1, TAG_GRE1, TAG_GRP1, TAG_GRS1, TAG_LYT1,
    TAG_MAT1, TAG_PAE1, TAG_PAN1, TAG_PAS1, TAG_PIC1, TAG_PRT1, TAG_TXL1, TAG_TXT1, TAG_USD1,
    TAG_WND1,
};

verus! {

/// Payload bytes of the largest encodable section: the length field is a
/// 32-bit value that includes the 8-byte section header.
pub const MAX_PAYLOAD: u32 = 0xFFFF_FFF7;

pub open spec fn enc_color(c: ResColorTest) -> Seq<u8> {
    seq![c.r, c.g, c.b, c.a]
}

pub open spec fn enc_vec2(v: ResVec2Test) -> Seq<u8> {
    u32_bytes(v.x) + u32_bytes(v.y)
}

pub open spec fn enc_vec3(v: ResVec3Test) -> Seq<u8> {
    u32_bytes(v.x) + u32_bytes(v.y) + u32_bytes(v.z)
}

/// The 76-byte common pane block.
pub open spec fn enc_pane(p: ResPaneTest) -> Seq<u8> {
    seq![p.flag, p.base_position, p.alpha, p.flag_ex] + p.name@ + p.user_data@ + enc_vec3(p.pos)
        + u32_bytes(p.rot_x) + u32_bytes(p.rot_y) + u32_bytes(p.rot_z) + u32_bytes(p.scale_x)
        + u32_bytes(p.scale_y) + u32_bytes(p.size_x) + u32_bytes(p.size_y)
}

pub open spec fn pane_wf(p: ResPaneTest) -> bool {
    p.name@.len() == 24 && p.user_data@.len() == 8
}

pub proof fn lemma_enc_pane_len(p: ResPaneTest)
    requires
        pane_wf(p),
    ensures
        enc_pane(p).len() == 76,
{
}

/// Concatenated encodings of a color list.
pub open spec fn enc_colors(cs: Seq<ResColorTest>) -> Seq<u8>
    decreases cs.len(),
{
    if cs.len() == 0 {
        Seq::empty()
    } else {
        enc_color(cs[0]) + enc_colors(cs.subrange(1, cs.len() as int))
    }
}

pub proof fn lemma_enc_colors_len(cs: Seq<ResColorTest>)
    ensures
        enc_colors(cs).len() == 4 * cs.len(),
    decreases cs.len(),
{
    if cs.len() > 0 {
        lemma_enc_colors_len(cs.subrange(1, cs.len() as int));
    }
}

pub proof fn lemma_enc_colors_snoc(cs: Seq<ResColorTest>, c: ResColorTest)
    ensures
        enc_colors(cs + seq![c]) == enc_colors(cs) + enc_color(c),
    decreases cs.len(),
{
    let w = cs + seq![c];
    if cs.len() == 0 {
        assert(cs =~= Seq::<ResColorTest>::empty());
        assert(w.subrange(1, w.len() as int) =~= Seq::<ResColorTest>::empty());
        assert(w[0] == c);
        assert(enc_colors(w) =~= enc_colors(cs) + enc_color(c));
    } else {
        assert(w.subrange(1, w.len() as int) =~= cs.subrange(1, cs.len() as int) + seq![c]);
        lemma_enc_colors_snoc(cs.subrange(1, cs.len() as int), c);
        assert(enc_colors(w) =~= enc_colors(cs) + enc_color(c));
    }
}

/// Concatenated little-endian encodings of a 32-bit value list.
pub open spec fn enc_u32s(xs: Seq<u32>) -> Seq<u8>
    decreases xs.len(),
{
    if xs.len() == 0 {
        Seq::empty()
    } else {
        u32_bytes(xs[0]) + enc_u32s(xs.subrange(1, xs.len() as int))
    }
}

pub proof fn lemma_enc_u32s_len(xs: Seq<u32>)
    ensures
        enc_u32s(xs).len() == 4 * xs.len(),
    decreases xs.len(),
{
    if xs.len() > 0 {
        lemma_enc_u32s_len(xs.subrange(1, xs.len() as int));
    }
}

pub proof fn lemma_enc_u32s_snoc(xs: Seq<u32>, x: u32)
    ensures
        enc_u32s(xs + seq![x]) == enc_u32s(xs) + u32_bytes(x),
    decreases xs.len(),
{
    let w = xs + seq![x];
    if xs.len() == 0 {
        assert(xs =~= Seq::<u32>::empty());
        assert(w.subrange(1, w.len() as int) =~= Seq::<u32>::empty());
        assert(w[0] == x);
        assert(enc_u32s(w) =~= enc_u32s(xs) + u32_bytes(x));
    } else {
        assert(w.subrange(1, w.len() as int) =~= xs.subrange(1, xs.len() as int) + seq![x]);
        lemma_enc_u32s_snoc(xs.subrange(1, xs.len() as int), x);
        assert(enc_u32s(w) =~= enc_u32s(xs) + u32_bytes(x));
    }
}

/// The texture-name string block: each name followed by its NUL terminator.
pub open spec fn enc_str_block(names: Seq<Seq<u8>>) -> Seq<u8>
    decreases names.len(),
{
    if names.len() == 0 {
        Seq::empty()
    } else {
        names[0] + seq![0u8] + enc_str_block(names.subrange(1, names.len() as int))
    }
}

pub proof fn lemma_enc_str_block_snoc(names: Seq<Seq<u8>>, n: Seq<u8>)
    ensures
        enc_str_block(names + seq![n]) == enc_str_block(names) + n + seq![0u8],
    decreases names.len(),
{
    let w = names + seq![n];
    if names.len() == 0 {
        assert(names =~= Seq::<Seq<u8>>::empty());
        assert(w.subrange(1, w.len() as int) =~= Seq::<Seq<u8>>::empty());
        assert(w[0] == n);
        assert(enc_str_block(w) =~= enc_str_block(names) + n + seq![0u8]);
    } else {
        assert(w.subrange(1, w.len() as int) =~= names.subrange(1, names.len() as int) + seq![n]);
        lemma_enc_str_block_snoc(names.subrange(1, names.len() as int), n);
        assert(enc_str_block(w) =~= enc_str_block(names) + n + seq![0u8]);
    }
}

/// The stored offset of texture name `k`: measured from the position
/// immediately following the offset array, which the strings follow
/// directly.
pub open spec fn texlist_off(names: Seq<Seq<u8>>, k: int) -> int {
    enc_str_block(names.subrange(0, k)).len() as int
}

/// The canonical offset table of a texture list.
pub open spec fn enc_texlist_offsets(names: Seq<Seq<u8>>, k: int) -> Seq<u8>
    decreases names.len() - k,
{
    if k < 0 || k >= names.len() {
        Seq::empty()
    } else {
        u32_bytes(texlist_off(names, k) as u32) + enc_texlist_offsets(names, k + 1)
    }
}

/// The byte-sequence views of a list of byte vectors.
pub open spec fn views_of(ns: Seq<Vec<u8>>) -> Seq<Seq<u8>> {
    ns.map_values(|v: Vec<u8>| v@)
}

/// `txl1` payload: count, offset table, strings, padding to four bytes.
pub open spec fn enc_texlist(t: TextureListInner) -> Seq<u8> {
    let names = views_of(t.texture_names@);
    let body = u32_bytes(names.len() as u32) + enc_texlist_offsets(names, 0) + enc_str_block(names);
    body + zeros(pad4(body.len() as int))
}

pub open spec fn texlist_wf(t: TextureListInner) -> bool {
    &&& forall|i: int|
        0 <= i < t.texture_names@.len() ==> nul_free(#[trigger] t.texture_names@[i]@)
    &&& enc_texlist(t).len() <= MAX_PAYLOAD
}

pub open spec fn enc_quad(q: ResTexCoordQuad) -> Seq<u8> {
    enc_vec2(q.tl) + enc_vec2(q.tr) + enc_vec2(q.bl) + enc_vec2(q.br)
}

pub open spec fn enc_quads(qs: Seq<ResTexCoordQuad>) -> Seq<u8>
    decreases qs.len(),
{
    if qs.len() == 0 {
        Seq::empty()
    } else {
        enc_quad(qs[0]) + enc_quads(qs.subrange(1, qs.len() as int))
    }
}

pub proof fn lemma_enc_quads_len(qs: Seq<ResTexCoordQuad>)
    ensures
        enc_quads(qs).len() == 32 * qs.len(),
    decreases qs.len(),
{
    if qs.len() > 0 {
        lemma_enc_quads_len(qs.subrange(1, qs.len() as int));
    }
}

pub proof fn lemma_enc_quads_snoc(qs: Seq<ResTexCoordQuad>, q: ResTexCoordQuad)
    ensures
        enc_quads(qs + seq![q]) == enc_quads(qs) + enc_quad(q),
    decreases qs.len(),
{
    let w = qs + seq![q];
    if qs.len() == 0 {
        assert(qs =~= Seq::<ResTexCoordQuad>::empty());
        assert(w.subrange(1, w.len() as int) =~= Seq::<ResTexCoordQuad>::empty());
        assert(w[0] == q);
        assert(enc_quads(w) =~= enc_quads(qs) + enc_quad(q));
    } else {
        assert(w.subrange(1, w.len() as int) =~= qs.subrange(1, qs.len() as int) + seq![q]);
        lemma_enc_quads_snoc(qs.subrange(1, qs.len() as int), q);
        assert(enc_quads(w) =~= enc_quads(qs) + enc_quad(q));
    }
}

/// `pic1` payload: pane block, four vertex colors, material index, quad
/// count, flags, then the texture-coordinate quads.
pub open spec fn enc_picture(p: ResPictureTest) -> Seq<u8> {
    enc_pane(p.pane) + enc_colors(p.vtx_cols@) + u16_bytes(p.material_idx) + seq![
        p.tex_coords@.len() as u8,
        p.flags,
    ] + enc_quads(p.tex_coords@)
}

pub open spec fn picture_wf(p: ResPictureTest) -> bool {
    &&& pane_wf(p.pane)
    &&& p.vtx_cols@.len() == 4
    &&& p.tex_coords@.len() <= 255
}

pub proof fn lemma_enc_picture_len(p: ResPictureTest)
    requires
        picture_wf(p),
    ensures
        enc_picture(p).len() == 96 + 32 * p.tex_coords@.len(),
{
    lemma_enc_pane_len(p.pane);
    lemma_enc_colors_len(p.vtx_cols@);
    lemma_enc_quads_len(p.tex_coords@);
}

pub open spec fn enc_anim_info(a: ResAnimationInfo) -> Seq<u8> {
    u32_bytes(a.kind) + seq![a.count] + a.padding@
}

pub open spec fn anim_info_wf(a: ResAnimationInfo) -> bool {
    a.padding@.len() == 3
}

pub open spec fn enc_per_char(t: ResPerCharacterTransform) -> Seq<u8> {
    u32_bytes(t.eval_time_offset) + u32_bytes(t.eval_time_width) + seq![
        t.loop_type,
        t.origin_v,
        t.has_animation_info,
        t.padding,
    ]
}

/// The text block of a `txt1` payload: the raw text buffer.
pub open spec fn txt_text_block(t: ResTextBoxTest) -> Seq<u8> {
    t.text@
}

/// The optional text-identifier block: the identifier and its terminator.
pub open spec fn txt_id_block(t: ResTextBoxTest) -> Seq<u8> {
    match t.text_id {
        Some(id) => id@ + seq![0u8],
        None => Seq::empty(),
    }
}

/// The optional line-width block: a count byte, the line offsets, then the
/// line widths.
pub open spec fn txt_lw_block(t: ResTextBoxTest) -> Seq<u8> {
    match t.line_widths {
        Some(lw) => seq![lw.line_offset@.len() as u8] + enc_u32s(lw.line_offset@) + enc_u32s(
            lw.line_width@,
        ),
        None => Seq::empty(),
    }
}

/// The optional per-character transform block: the transform record directly
/// followed by its animation-info record.
pub open spec fn txt_pct_block(t: ResTextBoxTest) -> Seq<u8> {
    match (t.per_character_transform, t.per_character_transform_animation_info) {
        (Some(p), Some(a)) => enc_per_char(p) + enc_anim_info(a),
        _ => Seq::empty(),
    }
}

/// Stored offset of the text buffer: it follows the fixed fields directly.
pub open spec fn txt_text_off(t: ResTextBoxTest) -> int {
    168
}

/// Stored offset of the text identifier, zero when absent.
pub open spec fn txt_id_off(t: ResTextBoxTest) -> int {
    if t.text_id is Some {
        168 + t.text@.len() as int
    } else {
        0
    }
}

/// Stored offset of the line-width table, zero when absent.
pub open spec fn txt_lw_off(t: ResTextBoxTest) -> int {
    if t.line_widths is Some {
        168 + t.text@.len() + txt_id_block(t).len() as int
    } else {
        0
    }
}

/// Stored offset of the per-character transform, zero when absent.
pub open spec fn txt_pct_off(t: ResTextBoxTest) -> int {
    if t.per_character_transform is Some {
        168 + t.text@.len() + txt_id_block(t).len() + txt_lw_block(t).len() as int
    } else {
        0
    }
}

/// The 160 fixed payload bytes of a `txt1` section.
pub open spec fn enc_textbox_fixed(t: ResTextBoxTest) -> Seq<u8> {
    enc_pane(t.pane) + u16_bytes(t.text@.len() as u16) + u16_bytes(t.text_str_bytes) + u16_bytes(
        t.material_idx,
    ) + u16_bytes(t.font_idx) + seq![t.text_position, t.text_alignment] + u16_bytes(t.text_box_flag)
        + u32_bytes(t.italic_ratio) + u32_bytes(txt_text_off(t) as u32) + enc_colors(t.text_cols@)
        + enc_vec2(t.font_size) + u32_bytes(t.char_space) + u32_bytes(t.line_space) + u32_bytes(
        txt_id_off(t) as u32,
    ) + enc_vec2(t.shadow_offset) + enc_vec2(t.shadow_scale) + enc_colors(t.shadow_cols@)
        + u32_bytes(t.shadow_italic_ratio) + u32_bytes(txt_lw_off(t) as u32) + u32_bytes(
        txt_pct_off(t) as u32,
    )
}

/// `txt1` payload: fixed fields, the text buffer, the conditional blocks in
/// canonical order, padding to four bytes.
pub open spec fn enc_textbox(t: ResTextBoxTest) -> Seq<u8> {
    let body = enc_textbox_fixed(t) + txt_text_block(t) + txt_id_block(t) + txt_lw_block(t)
        + txt_pct_block(t);
    body + zeros(pad4(body.len() as int))
}

pub open spec fn textbox_wf(t: ResTextBoxTest) -> bool {
    &&& pane_wf(t.pane)
    &&& t.text_cols@.len() == 2
    &&& t.shadow_cols@.len() == 2
    &&& t.text@.len() <= 0xffff
    &&& match t.text_id {
        Some(id) => nul_free(id@),
        None => true,
    }
    &&& match t.line_widths {
        Some(lw) => lw.line_offset@.len() == lw.line_width@.len() && lw.line_offset@.len() <= 255,
        None => true,
    }
    &&& t.per_character_transform is Some == t.per_character_transform_animation_info is Some
    &&& match t.per_character_transform_animation_info {
        Some(a) => anim_info_wf(a),
        None => true,
    }
    &&& enc_textbox(t).len() <= MAX_PAYLOAD
}

pub proof fn lemma_enc_textbox_fixed_len(t: ResTextBoxTest)
    requires
        pane_wf(t.pane),
        t.text_cols@.len() == 2,
        t.shadow_cols@.len() == 2,
    ensures
        enc_textbox_fixed(t).len() == 160,
{
    lemma_enc_pane_len(t.pane);
    lemma_enc_colors_len(t.text_cols@);
    lemma_enc_colors_len(t.shadow_cols@);
}

/// The little-endian tag value a section encodes under.
pub open spec fn tag_of(s: BflytSection) -> u32 {
    match s {
        BflytSection::Pane { .. } => TAG_PAN1,
        BflytSection::TextureList { .. } => TAG_TXL1,
        BflytSection::Picture { .. } => TAG_PIC1,
        BflytSection::TextBox { .. } => TAG_TXT1,
        BflytSection::Part { .. } => TAG_PRT1,
        BflytSection::Material { .. } => TAG_MAT1,
        BflytSection::Window { .. } => TAG_WND1,
        BflytSection::PaneStart => TAG_PAS1,
        BflytSection::PaneEnd => TAG_PAE1,
        BflytSection::Group { .. } => TAG_GRP1,
        BflytSection::GroupStart => TAG_GRS1,
        BflytSection::GroupEnd => TAG_GRE1,
        BflytSection::Bounding { .. } => TAG_BND1,
        BflytSection::Layout { .. } => TAG_LYT1,
        BflytSection::FontList { .. } => TAG_FNL1,
        BflytSection::UserDataList { .. } => TAG_USD1,
        BflytSection::Unknown { tag, .. } => tag,
    }
}

/// The encoding of an optional nested section of a part property.
pub open spec fn enc_opt_section(o: Option<Box<BflytSection>>) -> Seq<u8>
    decreases o, 3int,
{
    match o {
        Some(b) => enc_section(*b),
        None => Seq::empty(),
    }
}

/// The nested-section region of a `prt1` payload: the sections fetched by
/// each property's three slots, in property order, laid out back to back.
pub open spec fn enc_nested(props: Seq<ResPartsProperty>) -> Seq<u8>
    decreases props, 4int,
{
    if props.len() == 0 {
        Seq::empty()
    } else {
        enc_opt_section(props[0].property) + enc_opt_section(props[0].ext_user_data)
            + enc_opt_section(props[0].pane_basic_info) + enc_nested(
            props.subrange(1, props.len() as int),
        )
    }
}

/// The 40-byte fixed record of one part property, with its three stored
/// offsets already resolved.
pub open spec fn enc_prop_head(p: ResPartsProperty, o1: int, o2: int, o3: int) -> Seq<u8> {
    p.name@ + seq![
        p.usage_flag,
        p.basic_usage_flag,
        p.material_usage_flag,
        p.system_ext_user_data_override_flag,
    ] + u32_bytes(o1 as u32) + u32_bytes(o2 as u32) + u32_bytes(o3 as u32)
}

/// The property table of a `prt1` payload.  `pos` is the section-relative
/// position where the next nested section will be written; a present slot
/// stores that position, an absent slot stores zero.
pub open spec fn enc_prop_heads(props: Seq<ResPartsProperty>, pos: int) -> Seq<u8>
    decreases props, 4int,
{
    if props.len() == 0 {
        Seq::empty()
    } else {
        let p = props[0];
        let l1 = enc_opt_section(p.property).len();
        let l2 = enc_opt_section(p.ext_user_data).len();
        let l3 = enc_opt_section(p.pane_basic_info).len();
        let o1: int = if p.property is Some {
            pos
        } else {
            0
        };
        let o2: int = if p.ext_user_data is Some {
            pos + l1
        } else {
            0
        };
        let o3: int = if p.pane_basic_info is Some {
            pos + l1 + l2
        } else {
            0
        };
        enc_prop_head(p, o1, o2, o3) + enc_prop_heads(
            props.subrange(1, props.len() as int),
            pos + l1 + l2 + l3,
        )
    }
}

/// Section-relative position of the nested-section region of a `prt1`
/// section with `n` properties and the given part name.
pub open spec fn parts_nested_start(n: int, name_len: int) -> int {
    align4(96 + 40 * n + name_len + 1)
}

/// `prt1` payload: pane block, property count, magnify, property table,
/// NUL-terminated part name, padding to four bytes, then the nested
/// sections.
pub open spec fn enc_parts(part: ResPartsTest) -> Seq<u8>
    decreases part, 5int,
{
    let props = part.properties@;
    let n = props.len() as int;
    let name_len = part.part_name@.len() as int;
    let nstart = parts_nested_start(n, name_len);
    enc_pane(part.pane) + u32_bytes(n as u32) + enc_vec2(part.magnify) + enc_prop_heads(
        props,
        nstart,
    ) + part.part_name@ + seq![0u8] + zeros(pad4(name_len + 1)) + enc_nested(props)
}

/// Payload bytes of a section: everything after the 8-byte tag-and-length
/// header.
pub open spec fn enc_payload(s: BflytSection) -> Seq<u8>
    decreases s, 6int,
{
    match s {
        BflytSection::Pane { pane } => enc_pane(pane),
        BflytSection::TextureList { texture_list } => enc_texlist(texture_list),
        BflytSection::Picture { picture } => enc_picture(picture),
        BflytSection::TextBox { text_box } => enc_textbox(*text_box),
        BflytSection::Part { part } => enc_parts(part),
        BflytSection::Material { data } => data@,
        BflytSection::Window { data } => data@,
        BflytSection::PaneStart => Seq::empty(),
        BflytSection::PaneEnd => Seq::empty(),
        BflytSection::Group { data } => data@,
        BflytSection::GroupStart => Seq::empty(),
        BflytSection::GroupEnd => Seq::empty(),
        BflytSection::Bounding { data } => data@,
        BflytSection::Layout { data } => data@,
        BflytSection::FontList { data } => data@,
        BflytSection::UserDataList { data } => data@,
        BflytSection::Unknown { tag, data } => data@,
    }
}

/// The full encoding of one section: tag, self-inclusive length, payload.
pub open spec fn enc_section(s: BflytSection) -> Seq<u8>
    decreases s, 7int,
{
    u32_bytes(tag_of(s)) + u32_bytes((8 + enc_payload(s).len()) as u32) + enc_payload(s)
}

/// Well-formedness of the optional nested section of a part property.
pub open spec fn opt_section_wf(o: Option<Box<BflytSection>>) -> bool
    decreases o, 3int,
{
    match o {
        Some(b) => sec_wf(*b),
        None => true,
    }
}

/// Well-formedness of a property list: each property's name buffer is 24
/// bytes wide and its nested sections are themselves well formed.
pub open spec fn props_wf(props: Seq<ResPartsProperty>) -> bool
    decreases props, 4int,
{
    if props.len() == 0 {
        true
    } else {
        &&& props[0].name@.len() == 24
        &&& opt_section_wf(props[0].property)
        &&& opt_section_wf(props[0].ext_user_data)
        &&& opt_section_wf(props[0].pane_basic_info)
        &&& props_wf(props.subrange(1, props.len() as int))
    }
}

pub open spec fn parts_wf(part: ResPartsTest) -> bool
    decreases part, 5int,
{
    &&& pane_wf(part.pane)
    &&& nul_free(part.part_name@)
    &&& props_wf(part.properties@)
    &&& enc_parts(part).len() <= MAX_PAYLOAD
}

/// Well-formedness of a section: its payload can be encoded and the whole
/// section fits the 32-bit length field.  An unknown section must not claim
/// a known tag, so decoding its encoding yields it back unchanged.
pub open spec fn sec_wf(s: BflytSection) -> bool
    decreases s, 6int,
{
    match s {
        BflytSection::Pane { pane } => pane_wf(pane),
        BflytSection::TextureList { texture_list } => texlist_wf(texture_list),
        BflytSection::Picture { picture } => picture_wf(picture),
        BflytSection::TextBox { text_box } => textbox_wf(*text_box),
        BflytSection::Part { part } => parts_wf(part),
        BflytSection::Material { data } => data@.len() <= MAX_PAYLOAD,
        BflytSection::Window { data } => data@.len() <= MAX_PAYLOAD,
        BflytSection::PaneStart => true,
        BflytSection::PaneEnd => true,
        BflytSection::Group { data } => data@.len() <= MAX_PAYLOAD,
        BflytSection::GroupStart => true,
        BflytSection::GroupEnd => true,
        BflytSection::Bounding { data } => data@.len() <= MAX_PAYLOAD,
        BflytSection::Layout { data } => data@.len() <= MAX_PAYLOAD,
        BflytSection::FontList { data } => data@.len() <= MAX_PAYLOAD,
        BflytSection::UserDataList { data } => data@.len() <= MAX_PAYLOAD,
        BflytSection::Unknown { tag, data } => !known_tag(tag) && data@.len() <= MAX_PAYLOAD,
    }
}

/// The concatenated encodings of a section list.
pub open spec fn enc_sections(secs: Seq<BflytSection>) -> Seq<u8>
    decreases secs, 8int,
{
    if secs.len() == 0 {
        Seq::empty()
    } else {
        enc_section(secs[0]) + enc_sections(secs.subrange(1, secs.len() as int))
    }
}

pub proof fn lemma_enc_sections_snoc(secs: Seq<BflytSection>, s: BflytSection)
    ensures
        enc_sections(secs + seq![s]) == enc_sections(secs) + enc_section(s),
    decreases secs.len(),
{
    let w = secs + seq![s];
    if secs.len() == 0 {
        assert(secs =~= Seq::<BflytSection>::empty());
        assert(w.subrange(1, w.len() as int) =~= Seq::<BflytSection>::empty());
        assert(w[0] == s);
        assert(enc_sections(w) =~= enc_sections(secs) + enc_section(s));
    } else {
        assert(w.subrange(1, w.len() as int) =~= secs.subrange(1, secs.len() as int) + seq![s]);
        lemma_enc_sections_snoc(secs.subrange(1, secs.len() as int), s);
        assert(enc_sections(w) =~= enc_sections(secs) + enc_section(s));
    }
}

pub open spec fn secs_wf(secs: Seq<BflytSection>) -> bool {
    forall|i: int| 0 <= i < secs.len() ==> sec_wf(#[trigger] secs[i])
}

/// The 20-byte file header followed by every section.  The magic and the
/// byte-order sentinel are fixed; the total file size and the section count
/// are recomputed from the sections.
pub open spec fn enc_file(f: BflytFile) -> Seq<u8> {
    u32_bytes(MAGIC_FLYT) + u16_bytes(BYTE_ORDER_LITTLE) + u16_bytes(f.header.header_size)
        + u32_bytes(f.header.version) + u32_bytes((20 + enc_sections(f.sections@).len()) as u32)
        + u16_bytes(f.sections@.len() as u16) + u16_bytes(f.header.padding) + enc_sections(
        f.sections@,
    )
}

pub open spec fn file_wf(f: BflytFile) -> bool {
    &&& secs_wf(f.sections@)
    &&& f.sections@.len() <= 0xffff
    &&& 20 + enc_sections(f.sections@).len() <= 0xFFFF_FFFF
}


pub proof fn lemma_texlist_offsets_len(names: Seq<Seq<u8>>, k: int)
    requires
        0 <= k <= names.len(),
    ensures
        enc_texlist_offsets(names, k).len() == 4 * (names.len() - k),
    decreases names.len() - k,
{
    if k < names.len() {
        lemma_texlist_offsets_len(names, k + 1);
    }
}

/// The string block of a prefix is never longer than that of the full list.
pub proof fn lemma_str_block_prefix_le(names: Seq<Seq<u8>>, k: int)
    requires
        0 <= k <= names.len(),
    ensures
        enc_str_block(names.subrange(0, k)).len() <= enc_str_block(names).len(),
    decreases names.len() - k,
{
    if k < names.len() {
        assert(names.subrange(0, k + 1) =~= names.subrange(0, k) + seq![names[k]]);
        lemma_enc_str_block_snoc(names.subrange(0, k), names[k]);
        lemma_str_block_prefix_le(names, k + 1);
    } else {
        assert(names.subrange(0, k) =~= names);
    }
}

pub proof fn lemma_enc_nested_snoc(ps: Seq<ResPartsProperty>, p: ResPartsProperty)
    ensures
        enc_nested(ps + seq![p]) == enc_nested(ps) + enc_opt_section(p.property) + enc_opt_section(
            p.ext_user_data,
        ) + enc_opt_section(p.pane_basic_info),
    decreases ps.len(),
{
    let w = ps + seq![p];
    if ps.len() == 0 {
        assert(ps =~= Seq::<ResPartsProperty>::empty());
        assert(w.subrange(1, w.len() as int) =~= Seq::<ResPartsProperty>::empty());
        assert(w[0] == p);
        assert(enc_nested(w) =~= enc_nested(ps) + enc_opt_section(p.property) + enc_opt_section(
            p.ext_user_data,
        ) + enc_opt_section(p.pane_basic_info));
    } else {
        assert(w.subrange(1, w.len() as int) =~= ps.subrange(1, ps.len() as int) + seq![p]);
        lemma_enc_nested_snoc(ps.subrange(1, ps.len() as int), p);
        assert(enc_nested(w) =~= enc_nested(ps) + enc_opt_section(p.property) + enc_opt_section(
            p.ext_user_data,
        ) + enc_opt_section(p.pane_basic_info));
    }
}

proof fn lemma_enc_prop_heads_nil(pos: int)
    ensures
        enc_prop_heads(Seq::<ResPartsProperty>::empty(), pos) == Seq::<u8>::empty(),
{
}

#[verifier::rlimit(100)]
#[verifier::spinoff_prover]
pub proof fn lemma_enc_prop_heads_snoc(ps: Seq<ResPartsProperty>, p: ResPartsProperty, pos: int)
    ensures
        enc_prop_heads(ps + seq![p], pos) == enc_prop_heads(ps, pos) + enc_prop_head(
            p,
            if p.property is Some {
                pos + enc_nested(ps).len()
            } else {
                0
            },
            if p.ext_user_data is Some {
                pos + enc_nested(ps).len() + enc_opt_section(p.property).len()
            } else {
                0
            },
            if p.pane_basic_info is Some {
                pos + enc_nested(ps).len() + enc_opt_section(p.property).len() + enc_opt_section(
                    p.ext_user_data,
                ).len()
            } else {
                0
            },
        ),
    decreases ps.len(),
{
    let w = ps + seq![p];
    let pl1 = enc_opt_section(p.property).len();
    let pl2 = enc_opt_section(p.ext_user_data).len();
    let pl3 = enc_opt_section(p.pane_basic_info).len();
    if ps.len() == 0 {
        assert(ps =~= Seq::<ResPartsProperty>::empty());
        assert(w.subrange(1, w.len() as int) =~= Seq::<ResPartsProperty>::empty());
        assert(w[0] == p);
        assert(enc_nested(ps).len() == 0);
        lemma_enc_prop_heads_nil(pos + pl1 + pl2 + pl3);
        assert(enc_prop_heads(w, pos) == enc_prop_head(
            p,
            if p.property is Some {
                pos
            } else {
                0
            },
            if p.ext_user_data is Some {
                pos + pl1
            } else {
                0
            },
            if p.pane_basic_info is Some {
                pos + pl1 + pl2
            } else {
                0
            },
        ) + enc_prop_heads(w.subrange(1, w.len() as int), pos + pl1 + pl2 + pl3));
        assert(enc_prop_heads(w, pos) =~= enc_prop_heads(ps, pos) + enc_prop_head(
            p,
            if p.property is Some {
                pos
            } else {
                0
            },
            if p.ext_user_data is Some {
                pos + pl1
            } else {
                0
            },
            if p.pane_basic_info is Some {
                pos + pl1 + pl2
            } else {
                0
            },
        ));
    } else {
        let q = ps[0];
        let l123 = enc_opt_section(q.property).len() + enc_opt_section(q.ext_user_data).len()
            + enc_opt_section(q.pane_basic_info).len();
        assert(w[0] == q);
        assert(w.subrange(1, w.len() as int) =~= ps.subrange(1, ps.len() as int) + seq![p]);
        lemma_enc_prop_heads_snoc(ps.subrange(1, ps.len() as int), p, pos + l123);
        assert(enc_nested(ps).len() == l123 + enc_nested(ps.subrange(1, ps.len() as int)).len());
        assert(enc_prop_heads(w, pos) =~= enc_prop_heads(ps, pos) + enc_prop_head(
            p,
            if p.property is Some {
                pos + enc_nested(ps).len()
            } else {
                0
            },
            if p.ext_user_data is Some {
                pos + enc_nested(ps).len() + pl1
            } else {
                0
            },
            if p.pane_basic_info is Some {
                pos + enc_nested(ps).len() + pl1 + pl2
            } else {
                0
            },
        ));
    }
}

/// The nested region of a property prefix is never longer than the whole
/// nested region.
pub proof fn lemma_enc_nested_prefix_le(ps: Seq<ResPartsProperty>, k: int)
    requires
        0 <= k <= ps.len(),
    ensures
        enc_nested(ps.subrange(0, k)).len() <= enc_nested(ps).len(),
    decreases ps.len() - k,
{
    if k < ps.len() {
        assert(ps.subrange(0, k + 1) =~= ps.subrange(0, k) + seq![ps[k]]);
        lemma_enc_nested_snoc(ps.subrange(0, k), ps[k]);
        lemma_enc_nested_prefix_le(ps, k + 1);
    } else {
        assert(ps.subrange(0, k) =~= ps);
    }
}

pub proof fn lemma_enc_prop_heads_len(ps: Seq<ResPartsProperty>, pos: int)
    requires
        props_wf(ps),
    ensures
        enc_prop_heads(ps, pos).len() == 40 * ps.len(),
    decreases ps.len(),
{
    if ps.len() > 0 {
        lemma_enc_prop_heads_len(
            ps.subrange(1, ps.len() as int),
            pos + enc_opt_section(ps[0].property).len() + enc_opt_section(
                ps[0].ext_user_data,
            ).len() + enc_opt_section(ps[0].pane_basic_info).len(),
        );
    }
}

/// Well-formedness of a property list is inherited by every prefix element.
pub proof fn lemma_props_wf_index(ps: Seq<ResPartsProperty>, i: int)
    requires
        props_wf(ps),
        0 <= i < ps.len(),
    ensures
        ps[i].name@.len() == 24,
        opt_section_wf(ps[i].property),
        opt_section_wf(ps[i].ext_user_data),
        opt_section_wf(ps[i].pane_basic_info),
    decreases i,
{
    if i > 0 {
        lemma_props_wf_index(ps.subrange(1, ps.len() as int), i - 1);
    }
}

/// The exact length of a `prt1` payload.
pub proof fn lemma_enc_parts_len(part: ResPartsTest)
    requires
        pane_wf(part.pane),
        props_wf(part.properties@),
    ensures
        enc_parts(part).len() == 88 + 40 * part.properties@.len() + part.part_name@.len() + 1
            + pad4(part.part_name@.len() + 1 as int) + enc_nested(part.properties@).len(),
{
    let props = part.properties@;
    let nstart = parts_nested_start(props.len() as int, part.part_name@.len() as int);
    lemma_enc_pane_len(part.pane);
    lemma_enc_prop_heads_len(props, nstart);
}

/// Every well-formed section has a payload that fits the length field.
pub proof fn lemma_sec_wf_payload_bound(s: BflytSection)
    requires
        sec_wf(s),
    ensures
        enc_payload(s).len() <= MAX_PAYLOAD,
{
    match s {
        BflytSection::Pane { pane } => {
            lemma_enc_pane_len(pane);
        },
        BflytSection::Picture { picture } => {
            lemma_enc_picture_len(picture);
        },
        _ => {},
    }
}

/// The encoded length of a section prefix is at most that of the whole
/// list.
pub proof fn lemma_enc_sections_prefix_le(secs: Seq<BflytSection>, k: int)
    requires
        0 <= k <= secs.len(),
    ensures
        enc_sections(secs.subrange(0, k)).len() <= enc_sections(secs).len(),
    decreases secs.len() - k,
{
    if k < secs.len() {
        assert(secs.subrange(0, k + 1) =~= secs.subrange(0, k) + seq![secs[k]]);
        lemma_enc_sections_snoc(secs.subrange(0, k), secs[k]);
        lemma_enc_sections_prefix_le(secs, k + 1);
    } else {
        assert(secs.subrange(0, k) =~= secs);
    }
}

/// The block lengths of a `txt1` payload, in one place.
pub proof fn lemma_enc_textbox_len(t: ResTextBoxTest)
    requires
        pane_wf(t.pane),
        t.text_cols@.len() == 2,
        t.shadow_cols@.len() == 2,
        match t.line_widths {
            Some(lw) => lw.line_offset@.len() == lw.line_width@.len(),
            None => true,
        },
        t.per_character_transform is Some == t.per_character_transform_animation_info is Some,
        match t.per_character_transform_animation_info {
            Some(a) => anim_info_wf(a),
            None => true,
        },
    ensures
        txt_id_block(t).len() == match t.text_id {
            Some(id) => id@.len() + 1,
            None => 0,
        },
        txt_lw_block(t).len() == match t.line_widths {
            Some(lw) => 1 + 8 * lw.line_offset@.len(),
            None => 0,
        },
        txt_pct_block(t).len() == if t.per_character_transform is Some {
            20int
        } else {
            0int
        },
        enc_textbox(t).len() == align4(
            160 + t.text@.len() + txt_id_block(t).len() + txt_lw_block(t).len() + txt_pct_block(
                t,
            ).len() as int,
        ),
{
    lemma_enc_textbox_fixed_len(t);
    match t.line_widths {
        Some(lw) => {
            lemma_enc_u32s_len(lw.line_offset@);
            lemma_enc_u32s_len(lw.line_width@);
        },
        None => {},
    }
}


/// Extending a well-formed property list by one well-formed record.
pub proof fn lemma_props_wf_snoc(ps: Seq<ResPartsProperty>, p: ResPartsProperty)
    requires
        props_wf(ps),
        p.name@.len() == 24,
        opt_section_wf(p.property),
        opt_section_wf(p.ext_user_data),
        opt_section_wf(p.pane_basic_info),
    ensures
        props_wf(ps + seq![p]),
    decreases ps.len(),
{
    let w = ps + seq![p];
    if ps.len() == 0 {
        assert(w[0] == p);
        assert(w.subrange(1, w.len() as int) =~= Seq::<ResPartsProperty>::empty());
        assert(props_wf(Seq::<ResPartsProperty>::empty()));
    } else {
        assert(w[0] == ps[0]);
        assert(w.subrange(1, w.len() as int) =~= ps.subrange(1, ps.len() as int) + seq![p]);
        lemma_props_wf_snoc(ps.subrange(1, ps.len() as int), p);
    }
}

/// Each name contributes at least its length plus a terminator to the
/// string block.
pub proof fn lemma_str_block_elem_le(names: Seq<Seq<u8>>, j: int)
    requires
        0 <= j < names.len(),
    ensures
        names[j].len() + 1 <= enc_str_block(names).len(),
    decreases j,
{
    if j > 0 {
        lemma_str_block_elem_le(names.subrange(1, names.len() as int), j - 1);
    }
}
} // verus!
