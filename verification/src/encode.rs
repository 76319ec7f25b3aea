//! The document encoder: executable functions that produce exactly the
//! canonical byte sequences of `crate::encoding`.  Section lengths, counts,
//! relative offsets and alignment padding are all recomputed from the
//! document, never copied from a previous decode.

use vstd::prelude::*;

use crate::bytes::{pad4, pad4_of, write_bytes, write_u16, write_u32, write_zeros};
use crate::encoding::{
    enc_anim_info, enc_color, enc_colors, enc_file, enc_nested, enc_opt_section,
    enc_pane, enc_parts, enc_payload, enc_per_char, enc_picture, enc_prop_head, enc_prop_heads,
    enc_quad, enc_quads, enc_section, enc_sections, enc_str_block, enc_texlist,
    enc_texlist_offsets, enc_textbox, enc_textbox_fixed, enc_u32s, enc_vec2, enc_vec3, file_wf,
    lemma_enc_nested_prefix_le, lemma_enc_nested_snoc, lemma_enc_pane_len, lemma_enc_parts_len,
    lemma_enc_prop_heads_len, lemma_enc_prop_heads_snoc, lemma_enc_sections_prefix_le,
    lemma_enc_sections_snoc, lemma_enc_str_block_snoc, lemma_enc_textbox_fixed_len,
    lemma_enc_textbox_len, lemma_enc_u32s_snoc, lemma_props_wf_index, lemma_sec_wf_payload_bound,
    lemma_str_block_prefix_le, lemma_texlist_offsets_len, opt_section_wf, parts_nested_start,
    parts_wf, picture_wf, props_wf, sec_wf, tag_of, texlist_off, texlist_wf, textbox_wf,
    lemma_enc_colors_snoc, lemma_enc_quads_snoc, secs_wf, txt_id_block,
    txt_lw_block, txt_pct_block, MAX_PAYLOAD,
};
use crate::model::{
    BflytFile, BflytSection, ResAnimationInfo, ResColorTest, ResPaneTest,
    ResPartsProperty, ResPartsTest, ResPerCharacterTransform, ResPictureTest, ResTexCoordQuad,
    ResTextBoxTest, ResVec2Test, ResVec3Test, TextureListInner, BYTE_ORDER_LITTLE, MAGIC_FLYT,
    TAG_BND1, TAG_FNL1, TAG_GRE1, TAG_GRP1, TAG_GRS1, TAG_LYT1, TAG_MAT1, TAG_PAE1, TAG_PAN1,
    TAG_PAS1, TAG_PIC1, TAG_PRT1, TAG_TXL1, TAG_TXT1, TAG_USD1, TAG_WND1,
};

verus! {

pub fn encode_color(out: &mut Vec<u8>, c: ResColorTest)
    ensures
        final(out)@ == old(out)@ + enc_color(c),
{
    out.push(c.r);
    out.push(c.g);
    out.push(c.b);
    out.push(c.a);
    proof {
        assert(out@ =~= old(out)@ + enc_color(c));
    }
}

pub fn encode_vec2(out: &mut Vec<u8>, v: ResVec2Test)
    ensures
        final(out)@ == old(out)@ + enc_vec2(v),
{
    write_u32(out, v.x);
    write_u32(out, v.y);
    proof {
        assert(out@ =~= old(out)@ + enc_vec2(v));
    }
}

pub fn encode_vec3(out: &mut Vec<u8>, v: ResVec3Test)
    ensures
        final(out)@ == old(out)@ + enc_vec3(v),
{
    write_u32(out, v.x);
    write_u32(out, v.y);
    write_u32(out, v.z);
    proof {
        assert(out@ =~= old(out)@ + enc_vec3(v));
    }
}

/// Writes the 76-byte common pane block.
pub fn encode_pane(out: &mut Vec<u8>, p: &ResPaneTest)
    ensures
        final(out)@ == old(out)@ + enc_pane(*p),
{
    out.push(p.flag);
    out.push(p.base_position);
    out.push(p.alpha);
    out.push(p.flag_ex);
    write_bytes(out, &p.name);
    write_bytes(out, &p.user_data);
    encode_vec3(out, p.pos);
    write_u32(out, p.rot_x);
    write_u32(out, p.rot_y);
    write_u32(out, p.rot_z);
    write_u32(out, p.scale_x);
    write_u32(out, p.scale_y);
    write_u32(out, p.size_x);
    write_u32(out, p.size_y);
    proof {
        assert(out@ =~= old(out)@ + enc_pane(*p));
    }
}

pub fn encode_colors(out: &mut Vec<u8>, cs: &Vec<ResColorTest>)
    ensures
        final(out)@ == old(out)@ + enc_colors(cs@),
{
    let mut i: usize = 0;
    while i < cs.len()
        invariant
            i <= cs.len(),
            out@ == old(out)@ + enc_colors(cs@.subrange(0, i as int)),
        decreases cs.len() - i,
    {
        encode_color(out, cs[i]);
        proof {
            assert(cs@.subrange(0, i + 1) =~= cs@.subrange(0, i as int) + seq![cs@[i as int]]);
            lemma_enc_colors_snoc(cs@.subrange(0, i as int), cs@[i as int]);
        }
        i = i + 1;
    }
    proof {
        assert(cs@.subrange(0, cs@.len() as int) =~= cs@);
    }
}

pub fn encode_u32s(out: &mut Vec<u8>, xs: &Vec<u32>)
    ensures
        final(out)@ == old(out)@ + enc_u32s(xs@),
{
    let mut i: usize = 0;
    while i < xs.len()
        invariant
            i <= xs.len(),
            out@ == old(out)@ + enc_u32s(xs@.subrange(0, i as int)),
        decreases xs.len() - i,
    {
        write_u32(out, xs[i]);
        proof {
            assert(xs@.subrange(0, i + 1) =~= xs@.subrange(0, i as int) + seq![xs@[i as int]]);
            lemma_enc_u32s_snoc(xs@.subrange(0, i as int), xs@[i as int]);
        }
        i = i + 1;
    }
    proof {
        assert(xs@.subrange(0, xs@.len() as int) =~= xs@);
    }
}

pub fn encode_quads(out: &mut Vec<u8>, qs: &Vec<ResTexCoordQuad>)
    ensures
        final(out)@ == old(out)@ + enc_quads(qs@),
{
    let mut i: usize = 0;
    while i < qs.len()
        invariant
            i <= qs.len(),
            out@ == old(out)@ + enc_quads(qs@.subrange(0, i as int)),
        decreases qs.len() - i,
    {
        let q = qs[i];
        encode_vec2(out, q.tl);
        encode_vec2(out, q.tr);
        encode_vec2(out, q.bl);
        encode_vec2(out, q.br);
        proof {
            assert(qs@.subrange(0, i + 1) =~= qs@.subrange(0, i as int) + seq![qs@[i as int]]);
            lemma_enc_quads_snoc(qs@.subrange(0, i as int), qs@[i as int]);
            assert(out@ =~= old(out)@ + enc_quads(qs@.subrange(0, i + 1)));
        }
        i = i + 1;
    }
    proof {
        assert(qs@.subrange(0, qs@.len() as int) =~= qs@);
    }
}

/// Encodes a `txl1` payload, recomputing the offset table from the string
/// lengths.
pub fn encode_texlist(t: &TextureListInner) -> (r: Vec<u8>)
    requires
        texlist_wf(*t),
    ensures
        r@ == enc_texlist(*t),
{
    let ghost names = crate::encoding::views_of(t.texture_names@);
    let n = t.texture_names.len();
    proof {
        lemma_texlist_offsets_len(names, 0);
        assert(names.len() == n);
        assert(enc_texlist(*t).len() >= 4 + 4 * n);
    }
    let mut out: Vec<u8> = Vec::new();
    write_u32(&mut out, n as u32);
    let mut off: usize = 0;
    let mut k: usize = 0;
    proof {
        assert(names.subrange(0, 0) =~= Seq::<Seq<u8>>::empty());
    }
    while k < n
        invariant
            texlist_wf(*t),
            names == crate::encoding::views_of(t.texture_names@),
            n == t.texture_names@.len(),
            k <= n,
            off == texlist_off(names, k as int),
            out@ + enc_texlist_offsets(names, k as int) == u32_bytes_n(n as u32)
                + enc_texlist_offsets(names, 0),
        decreases n - k,
    {
        proof {
            lemma_texlist_offsets_len(names, 0);
            lemma_str_block_prefix_le(names, k as int);
            assert(pad4(enc_texlist_body_len(*t)) >= 0);
            assert(enc_texlist(*t).len() >= 4 + 4 * n + enc_str_block(names.subrange(
                0,
                k as int,
            )).len());
        }
        write_u32(&mut out, off as u32);
        proof {
            assert(names.subrange(0, k + 1) =~= names.subrange(0, k as int) + seq![names[k as int]]);
            lemma_enc_str_block_snoc(names.subrange(0, k as int), names[k as int]);
            assert(names[k as int] == t.texture_names@[k as int]@);
            lemma_str_block_prefix_le(names, k + 1);
            assert(enc_str_block(names.subrange(0, k + 1)).len() <= enc_texlist(*t).len());
        }
        off = off + t.texture_names[k].len() + 1;
        k = k + 1;
    }
    proof {
        assert(enc_texlist_offsets(names, n as int) =~= Seq::<u8>::empty());
        assert(out@ =~= u32_bytes_n(n as u32) + enc_texlist_offsets(names, 0));
    }
    let mut k2: usize = 0;
    while k2 < n
        invariant
            names == crate::encoding::views_of(t.texture_names@),
            n == t.texture_names@.len(),
            k2 <= n,
            out@ == u32_bytes_n(n as u32) + enc_texlist_offsets(names, 0) + enc_str_block(
                names.subrange(0, k2 as int),
            ),
        decreases n - k2,
    {
        write_bytes(&mut out, &t.texture_names[k2]);
        out.push(0);
        proof {
            assert(names.subrange(0, k2 + 1) =~= names.subrange(0, k2 as int) + seq![names[k2 as int]]);
            lemma_enc_str_block_snoc(names.subrange(0, k2 as int), names[k2 as int]);
            assert(names[k2 as int] == t.texture_names@[k2 as int]@);
            assert(out@ =~= u32_bytes_n(n as u32) + enc_texlist_offsets(names, 0) + enc_str_block(
                names.subrange(0, k2 + 1),
            ));
        }
        k2 = k2 + 1;
    }
    proof {
        assert(names.subrange(0, names.len() as int) =~= names);
    }
    let body_len = out.len();
    let pad = pad4_of(body_len);
    write_zeros(&mut out, pad);
    proof {
        assert(out@ =~= enc_texlist(*t));
    }
    out
}

/// `u32_bytes`, under a name that avoids shadowing in invariants.
pub open spec fn u32_bytes_n(v: u32) -> Seq<u8> {
    crate::bytes::u32_bytes(v)
}

/// The unpadded body length of a `txl1` payload.
pub open spec fn enc_texlist_body_len(t: TextureListInner) -> int {
    let names = crate::encoding::views_of(t.texture_names@);
    4 + enc_texlist_offsets(names, 0).len() + enc_str_block(names).len() as int
}

/// Encodes a `pic1` payload.
pub fn encode_picture(t: &ResPictureTest) -> (r: Vec<u8>)
    requires
        picture_wf(*t),
    ensures
        r@ == enc_picture(*t),
{
    let mut out: Vec<u8> = Vec::new();
    encode_pane(&mut out, &t.pane);
    encode_colors(&mut out, &t.vtx_cols);
    write_u16(&mut out, t.material_idx);
    out.push(t.tex_coords.len() as u8);
    out.push(t.flags);
    encode_quads(&mut out, &t.tex_coords);
    proof {
        assert(out@ =~= enc_picture(*t));
    }
    out
}

pub fn encode_anim_info(out: &mut Vec<u8>, a: &ResAnimationInfo)
    ensures
        final(out)@ == old(out)@ + enc_anim_info(*a),
{
    write_u32(out, a.kind);
    out.push(a.count);
    write_bytes(out, &a.padding);
    proof {
        assert(out@ =~= old(out)@ + enc_anim_info(*a));
    }
}

pub fn encode_per_char(out: &mut Vec<u8>, t: &ResPerCharacterTransform)
    ensures
        final(out)@ == old(out)@ + enc_per_char(*t),
{
    write_u32(out, t.eval_time_offset);
    write_u32(out, t.eval_time_width);
    out.push(t.loop_type);
    out.push(t.origin_v);
    out.push(t.has_animation_info);
    out.push(t.padding);
    proof {
        assert(out@ =~= old(out)@ + enc_per_char(*t));
    }
}

/// Encodes a `txt1` payload, recomputing the four stored offsets from the
/// sizes of the blocks that are present.
#[verifier::rlimit(100)]
pub fn encode_textbox(t: &ResTextBoxTest) -> (r: Vec<u8>)
    requires
        textbox_wf(*t),
    ensures
        r@ == enc_textbox(*t),
{
    proof {
        lemma_enc_textbox_len(*t);
    }
    let text_len = t.text.len();
    let idb: usize = match &t.text_id {
        Some(id) => id.len() + 1,
        None => 0,
    };
    let lwb: usize = match &t.line_widths {
        Some(lw) => 1 + 8 * lw.line_offset.len(),
        None => 0,
    };
    let id_off: u32 = match &t.text_id {
        Some(_) => (168 + text_len) as u32,
        None => 0,
    };
    let lw_off: u32 = match &t.line_widths {
        Some(_) => (168 + text_len + idb) as u32,
        None => 0,
    };
    let pct_off: u32 = match &t.per_character_transform {
        Some(_) => (168 + text_len + idb + lwb) as u32,
        None => 0,
    };
    let mut out: Vec<u8> = Vec::new();
    encode_pane(&mut out, &t.pane);
    write_u16(&mut out, text_len as u16);
    write_u16(&mut out, t.text_str_bytes);
    write_u16(&mut out, t.material_idx);
    write_u16(&mut out, t.font_idx);
    out.push(t.text_position);
    out.push(t.text_alignment);
    write_u16(&mut out, t.text_box_flag);
    write_u32(&mut out, t.italic_ratio);
    write_u32(&mut out, 168);
    encode_colors(&mut out, &t.text_cols);
    encode_vec2(&mut out, t.font_size);
    write_u32(&mut out, t.char_space);
    write_u32(&mut out, t.line_space);
    write_u32(&mut out, id_off);
    encode_vec2(&mut out, t.shadow_offset);
    encode_vec2(&mut out, t.shadow_scale);
    encode_colors(&mut out, &t.shadow_cols);
    write_u32(&mut out, t.shadow_italic_ratio);
    write_u32(&mut out, lw_off);
    write_u32(&mut out, pct_off);
    proof {
        assert(out@ =~= enc_textbox_fixed(*t));
    }
    write_bytes(&mut out, &t.text);
    match &t.text_id {
        Some(id) => {
            write_bytes(&mut out, id);
            out.push(0);
        },
        None => {},
    }
    proof {
        assert(out@ =~= enc_textbox_fixed(*t) + t.text@ + txt_id_block(*t));
    }
    match &t.line_widths {
        Some(lw) => {
            out.push(lw.line_offset.len() as u8);
            encode_u32s(&mut out, &lw.line_offset);
            encode_u32s(&mut out, &lw.line_width);
        },
        None => {},
    }
    proof {
        assert(out@ =~= enc_textbox_fixed(*t) + t.text@ + txt_id_block(*t) + txt_lw_block(*t));
    }
    match (&t.per_character_transform, &t.per_character_transform_animation_info) {
        (Some(p), Some(a)) => {
            encode_per_char(&mut out, p);
            encode_anim_info(&mut out, a);
        },
        _ => {},
    }
    proof {
        assert(out@ =~= enc_textbox_fixed(*t) + t.text@ + txt_id_block(*t) + txt_lw_block(*t)
            + txt_pct_block(*t));
    }
    let body_len = out.len();
    let pad = pad4_of(body_len);
    write_zeros(&mut out, pad);
    proof {
        assert(out@ =~= enc_textbox(*t));
    }
    out
}

/// Writes the 40-byte fixed record of one part property.
fn encode_prop_head(out: &mut Vec<u8>, p: &ResPartsProperty, o1: u32, o2: u32, o3: u32)
    ensures
        final(out)@ == old(out)@ + enc_prop_head(*p, o1 as int, o2 as int, o3 as int),
{
    write_bytes(out, &p.name);
    out.push(p.usage_flag);
    out.push(p.basic_usage_flag);
    out.push(p.material_usage_flag);
    out.push(p.system_ext_user_data_override_flag);
    write_u32(out, o1);
    write_u32(out, o2);
    write_u32(out, o3);
    proof {
        assert(out@ =~= old(out)@ + enc_prop_head(*p, o1 as int, o2 as int, o3 as int));
    }
}

/// Encodes the optional nested section of a part property.
fn encode_opt_section(o: &Option<Box<BflytSection>>) -> (r: Vec<u8>)
    requires
        opt_section_wf(*o),
    ensures
        r@ == enc_opt_section(*o),
    decreases *o, 9int,
{
    match o {
        Some(b) => encode_section(&**b),
        None => {
            let r: Vec<u8> = Vec::new();
            r
        },
    }
}

/// Encodes a `prt1` payload, recomputing every property's stored offsets
/// from where its nested sections land.
#[verifier::rlimit(100)]
fn encode_parts(part: &ResPartsTest) -> (r: Vec<u8>)
    requires
        parts_wf(*part),
    ensures
        r@ == enc_parts(*part),
    decreases *part, 9int,
{
    proof {
        lemma_enc_parts_len(*part);
    }
    let ghost props = part.properties@;
    let n = part.properties.len();
    let name_len = part.part_name.len();
    let name_pad = pad4_of(name_len + 1);
    let nstart = 96 + 40 * n + name_len + 1 + name_pad;
    proof {
        assert(nstart == parts_nested_start(n as int, name_len as int));
    }
    let mut heads: Vec<u8> = Vec::new();
    let mut nested: Vec<u8> = Vec::new();
    let mut pos: usize = nstart;
    let mut i: usize = 0;
    proof {
        assert(props.subrange(0, 0) =~= Seq::<ResPartsProperty>::empty());
    }
    while i < n
        invariant
            parts_wf(*part),
            props == part.properties@,
            n == props.len(),
            i <= n,
            nstart == parts_nested_start(n as int, part.part_name@.len() as int),
            nstart + enc_nested(props).len() <= MAX_PAYLOAD + 8,
            heads@ == enc_prop_heads(props.subrange(0, i as int), nstart as int),
            nested@ == enc_nested(props.subrange(0, i as int)),
            pos == nstart + nested@.len(),
        decreases n - i,
    {
        proof {
            lemma_props_wf_index(props, i as int);
            lemma_enc_nested_prefix_le(props, i as int);
            lemma_enc_nested_prefix_le(props, i + 1);
            assert(props.subrange(0, i + 1) =~= props.subrange(0, i as int) + seq![props[i as int]]);
            lemma_enc_nested_snoc(props.subrange(0, i as int), props[i as int]);
            lemma_enc_prop_heads_snoc(props.subrange(0, i as int), props[i as int], nstart as int);
        }
        let p = &part.properties[i];
        let b1 = encode_opt_section(&p.property);
        let b2 = encode_opt_section(&p.ext_user_data);
        let b3 = encode_opt_section(&p.pane_basic_info);
        let o1: u32 = if p.property.is_some() {
            pos as u32
        } else {
            0
        };
        let o2: u32 = if p.ext_user_data.is_some() {
            (pos + b1.len()) as u32
        } else {
            0
        };
        let o3: u32 = if p.pane_basic_info.is_some() {
            (pos + b1.len() + b2.len()) as u32
        } else {
            0
        };
        encode_prop_head(&mut heads, p, o1, o2, o3);
        write_bytes(&mut nested, &b1);
        write_bytes(&mut nested, &b2);
        write_bytes(&mut nested, &b3);
        pos = pos + b1.len() + b2.len() + b3.len();
        i = i + 1;
    }
    proof {
        assert(props.subrange(0, props.len() as int) =~= props);
    }
    let mut out: Vec<u8> = Vec::new();
    encode_pane(&mut out, &part.pane);
    write_u32(&mut out, n as u32);
    encode_vec2(&mut out, part.magnify);
    write_bytes(&mut out, &heads);
    write_bytes(&mut out, &part.part_name);
    out.push(0);
    write_zeros(&mut out, name_pad);
    write_bytes(&mut out, &nested);
    proof {
        assert(out@ =~= enc_parts(*part));
    }
    out
}

/// The tag a section encodes under.
pub fn section_tag(s: &BflytSection) -> (t: u32)
    ensures
        t == tag_of(*s),
{
    match s {
        BflytSection::Pane { .. } => TAG_PAN1,
        BflytSection::TextureList { .. } => TAG_TXL1,
        BflytSection::Picture { .. } => TAG_PIC1,
        BflytSection::TextBox { .. } => TAG_TXT1,
        BflytSection::Part { .. } => TAG_PRT1,
        BflytSection::Material { .. } => TAG_MAT1,
        BflytSection::Window { .. } => TAG_WND1,
        BflytSection::PaneStart => TAG_PAS1,
        BflytSection::PaneEnd => TAG_PAE1,
        BflytSection::Group { .. } => TAG_GRP1,
        BflytSection::GroupStart => TAG_GRS1,
        BflytSection::GroupEnd => TAG_GRE1,
        BflytSection::Bounding { .. } => TAG_BND1,
        BflytSection::Layout { .. } => TAG_LYT1,
        BflytSection::FontList { .. } => TAG_FNL1,
        BflytSection::UserDataList { .. } => TAG_USD1,
        BflytSection::Unknown { tag, .. } => *tag,
    }
}

/// Encodes one section's payload.
fn encode_payload(s: &BflytSection) -> (r: Vec<u8>)
    requires
        sec_wf(*s),
    ensures
        r@ == enc_payload(*s),
    decreases *s, 10int,
{
    match s {
        BflytSection::Pane { pane } => {
            let mut out: Vec<u8> = Vec::new();
            encode_pane(&mut out, pane);
            out
        },
        BflytSection::TextureList { texture_list } => encode_texlist(texture_list),
        BflytSection::Picture { picture } => encode_picture(picture),
        BflytSection::TextBox { text_box } => encode_textbox(&**text_box),
        BflytSection::Part { part } => encode_parts(part),
        BflytSection::Material { data } => copy_bytes(data),
        BflytSection::Window { data } => copy_bytes(data),
        BflytSection::PaneStart => Vec::new(),
        BflytSection::PaneEnd => Vec::new(),
        BflytSection::Group { data } => copy_bytes(data),
        BflytSection::GroupStart => Vec::new(),
        BflytSection::GroupEnd => Vec::new(),
        BflytSection::Bounding { data } => copy_bytes(data),
        BflytSection::Layout { data } => copy_bytes(data),
        BflytSection::FontList { data } => copy_bytes(data),
        BflytSection::UserDataList { data } => copy_bytes(data),
        BflytSection::Unknown { data, .. } => copy_bytes(data),
    }
}

fn copy_bytes(data: &Vec<u8>) -> (r: Vec<u8>)
    ensures
        r@ == data@,
{
    let mut out: Vec<u8> = Vec::new();
    write_bytes(&mut out, data);
    proof {
        assert(out@ =~= data@);
    }
    out
}

/// Encodes one section: tag, recomputed self-inclusive length, payload.
pub fn encode_section(s: &BflytSection) -> (r: Vec<u8>)
    requires
        sec_wf(*s),
    ensures
        r@ == enc_section(*s),
    decreases *s, 11int,
{
    let payload = encode_payload(s);
    proof {
        lemma_sec_wf_payload_bound(*s);
    }
    let mut out: Vec<u8> = Vec::new();
    write_u32(&mut out, section_tag(s));
    write_u32(&mut out, (payload.len() + 8) as u32);
    write_bytes(&mut out, &payload);
    proof {
        assert(out@ =~= enc_section(*s));
    }
    out
}

/// Encodes a whole document: the header with its recomputed file size and
/// section count, then every section.
pub fn encode_bflyt(f: &BflytFile) -> (r: Vec<u8>)
    requires
        file_wf(*f),
    ensures
        r@ == enc_file(*f),
{
    let mut body: Vec<u8> = Vec::new();
    let n = f.sections.len();
    let mut i: usize = 0;
    proof {
        assert(f.sections@.subrange(0, 0) =~= Seq::<BflytSection>::empty());
    }
    while i < n
        invariant
            file_wf(*f),
            n == f.sections@.len(),
            i <= n,
            body@ == enc_sections(f.sections@.subrange(0, i as int)),
        decreases n - i,
    {
        proof {
            assert(sec_wf(f.sections@[i as int]));
        }
        let sec = encode_section(&f.sections[i]);
        write_bytes(&mut body, &sec);
        proof {
            assert(f.sections@.subrange(0, i + 1) =~= f.sections@.subrange(0, i as int)
                + seq![f.sections@[i as int]]);
            lemma_enc_sections_snoc(f.sections@.subrange(0, i as int), f.sections@[i as int]);
        }
        i = i + 1;
    }
    proof {
        assert(f.sections@.subrange(0, f.sections@.len() as int) =~= f.sections@);
    }
    let mut out: Vec<u8> = Vec::new();
    write_u32(&mut out, MAGIC_FLYT);
    write_u16(&mut out, BYTE_ORDER_LITTLE);
    write_u16(&mut out, f.header.header_size);
    write_u32(&mut out, f.header.version);
    write_u32(&mut out, (20 + body.len()) as u32);
    write_u16(&mut out, n as u16);
    write_u16(&mut out, f.header.padding);
    write_bytes(&mut out, &body);
    proof {
        assert(out@ =~= enc_file(*f));
    }
    out
}

} // verus!
