//! The codec laws.  The central theorem is that decoding inverts encoding:
//! the canonical encoding of every well-formed value satisfies the parse
//! relation for that value (`lemma_section_round_trip`,
//! `lemma_file_round_trip`), and the parse relations are deterministic, so
//! whatever a buffer decodes to re-encodes to the same bytes
//! (`lemma_section_deterministic`, `lemma_file_deterministic`).  Together
//! these give the round-trip and idempotence guarantees: re-encoding a
//! decoded document reproduces the canonical bytes, and decode-encode
//! reaches a fixed point after one step.

use vstd::prelude::*;

use crate::bytes::{
    align4, le16_at, le32_at, lemma_le16_at_of, lemma_le32_at_of, lemma_subrange_sub, nul_free,
    pad4, u16_bytes, u32_bytes, zeros,
};
use crate::encoding::{
    enc_anim_info, enc_color, enc_colors, enc_file, enc_nested, enc_opt_section,
    enc_pane, enc_parts, enc_payload, enc_per_char, enc_picture, enc_prop_head, enc_prop_heads,
    enc_quad, enc_quads, enc_section, enc_sections, enc_str_block, enc_texlist,
    enc_texlist_offsets, enc_textbox, enc_textbox_fixed, enc_u32s, enc_vec2, enc_vec3, file_wf,
    lemma_enc_pane_len, lemma_enc_parts_len, lemma_enc_picture_len, lemma_enc_prop_heads_len,
    lemma_enc_sections_snoc, lemma_enc_str_block_snoc, lemma_enc_textbox_fixed_len,
    lemma_enc_textbox_len, lemma_props_wf_index, lemma_sec_wf_payload_bound,
    lemma_texlist_offsets_len, opt_section_wf, pane_wf, parts_nested_start, parts_wf, picture_wf,
    props_wf, sec_wf, secs_wf, tag_of, texlist_off, texlist_wf, textbox_wf, txt_id_block,
    txt_lw_block, txt_pct_block, txt_id_off, txt_lw_off, txt_pct_off, views_of, MAX_PAYLOAD,
};
use crate::model::{
    known_tag, BflytFile, BflytSection, ResAnimationInfo, ResColorTest, ResLineWidths,
    ResPaneTest, ResPartsProperty, ResPartsTest, ResPerCharacterTransform,
    ResPictureTest, ResTexCoordQuad, ResTextBoxTest, ResVec2Test, ResVec3Test, TextureListInner,
    BYTE_ORDER_LITTLE, MAGIC_FLYT, TAG_PAN1, TAG_PIC1, TAG_PRT1, TAG_TXL1, TAG_TXT1,
};
use crate::parse::{
    color_at, file_parses, last_nested_end, lw_parses, nested_section_at, opt_nested_parses,
    pane_parses, part_parses, pct_parses, per_char_at, picture_parses, prop_parses, props_parse,
    quad_at, section_parses, sections_parse, secs_end, string_at, texlist_parses, textbox_parses,
    vec2_at, vec3_at,
};

verus! {

proof fn lemma_color_roundtrip(b: Seq<u8>, i: int, c: ResColorTest)
    requires
        0 <= i,
        i + 4 <= b.len(),
        b.subrange(i, i + 4) == enc_color(c),
    ensures
        color_at(b, i) == c,
{
    assert(b[i] == enc_color(c)[0]);
    assert(b[i + 1] == enc_color(c)[1]);
    assert(b[i + 2] == enc_color(c)[2]);
    assert(b[i + 3] == enc_color(c)[3]);
}

proof fn lemma_vec2_roundtrip(b: Seq<u8>, i: int, v: ResVec2Test)
    requires
        0 <= i,
        i + 8 <= b.len(),
        b.subrange(i, i + 8) == enc_vec2(v),
    ensures
        vec2_at(b, i) == v,
{
    lemma_subrange_sub(b, i, i + 8, i, i + 4);
    assert(enc_vec2(v).subrange(0, 4) =~= u32_bytes(v.x));
    lemma_subrange_sub(b, i, i + 8, i + 4, i + 8);
    assert(enc_vec2(v).subrange(4, 8) =~= u32_bytes(v.y));
    lemma_le32_at_of(b, i, v.x);
    lemma_le32_at_of(b, i + 4, v.y);
}

proof fn lemma_vec3_roundtrip(b: Seq<u8>, i: int, v: ResVec3Test)
    requires
        0 <= i,
        i + 12 <= b.len(),
        b.subrange(i, i + 12) == enc_vec3(v),
    ensures
        vec3_at(b, i) == v,
{
    lemma_subrange_sub(b, i, i + 12, i, i + 4);
    assert(enc_vec3(v).subrange(0, 4) =~= u32_bytes(v.x));
    lemma_subrange_sub(b, i, i + 12, i + 4, i + 8);
    assert(enc_vec3(v).subrange(4, 8) =~= u32_bytes(v.y));
    lemma_subrange_sub(b, i, i + 12, i + 8, i + 12);
    assert(enc_vec3(v).subrange(8, 12) =~= u32_bytes(v.z));
    lemma_le32_at_of(b, i, v.x);
    lemma_le32_at_of(b, i + 4, v.y);
    lemma_le32_at_of(b, i + 8, v.z);
}

proof fn lemma_quad_roundtrip(b: Seq<u8>, i: int, q: ResTexCoordQuad)
    requires
        0 <= i,
        i + 32 <= b.len(),
        b.subrange(i, i + 32) == enc_quad(q),
    ensures
        quad_at(b, i) == q,
{
    lemma_subrange_sub(b, i, i + 32, i, i + 8);
    assert(enc_quad(q).subrange(0, 8) =~= enc_vec2(q.tl));
    lemma_subrange_sub(b, i, i + 32, i + 8, i + 16);
    assert(enc_quad(q).subrange(8, 16) =~= enc_vec2(q.tr));
    lemma_subrange_sub(b, i, i + 32, i + 16, i + 24);
    assert(enc_quad(q).subrange(16, 24) =~= enc_vec2(q.bl));
    lemma_subrange_sub(b, i, i + 32, i + 24, i + 32);
    assert(enc_quad(q).subrange(24, 32) =~= enc_vec2(q.br));
    lemma_vec2_roundtrip(b, i, q.tl);
    lemma_vec2_roundtrip(b, i + 8, q.tr);
    lemma_vec2_roundtrip(b, i + 16, q.bl);
    lemma_vec2_roundtrip(b, i + 24, q.br);
}

proof fn lemma_pane_roundtrip(b: Seq<u8>, i: int, p: ResPaneTest)
    requires
        pane_wf(p),
        0 <= i,
        i + 76 <= b.len(),
        b.subrange(i, i + 76) == enc_pane(p),
    ensures
        pane_parses(b, i, p),
{
    let e = enc_pane(p);
    assert(b[i] == b.subrange(i, i + 76)[0]);
    assert(b[i + 1] == b.subrange(i, i + 76)[1]);
    assert(b[i + 2] == b.subrange(i, i + 76)[2]);
    assert(b[i + 3] == b.subrange(i, i + 76)[3]);
    assert(e[0] == p.flag && e[1] == p.base_position && e[2] == p.alpha && e[3] == p.flag_ex);
    lemma_subrange_sub(b, i, i + 76, i + 4, i + 28);
    assert(e.subrange(4, 28) =~= p.name@);
    lemma_subrange_sub(b, i, i + 76, i + 28, i + 36);
    assert(e.subrange(28, 36) =~= p.user_data@);
    lemma_subrange_sub(b, i, i + 76, i + 36, i + 48);
    assert(e.subrange(36, 48) =~= enc_vec3(p.pos));
    lemma_vec3_roundtrip(b, i + 36, p.pos);
    lemma_subrange_sub(b, i, i + 76, i + 48, i + 52);
    assert(e.subrange(48, 52) =~= u32_bytes(p.rot_x));
    lemma_le32_at_of(b, i + 48, p.rot_x);
    lemma_subrange_sub(b, i, i + 76, i + 52, i + 56);
    assert(e.subrange(52, 56) =~= u32_bytes(p.rot_y));
    lemma_le32_at_of(b, i + 52, p.rot_y);
    lemma_subrange_sub(b, i, i + 76, i + 56, i + 60);
    assert(e.subrange(56, 60) =~= u32_bytes(p.rot_z));
    lemma_le32_at_of(b, i + 56, p.rot_z);
    lemma_subrange_sub(b, i, i + 76, i + 60, i + 64);
    assert(e.subrange(60, 64) =~= u32_bytes(p.scale_x));
    lemma_le32_at_of(b, i + 60, p.scale_x);
    lemma_subrange_sub(b, i, i + 76, i + 64, i + 68);
    assert(e.subrange(64, 68) =~= u32_bytes(p.scale_y));
    lemma_le32_at_of(b, i + 64, p.scale_y);
    lemma_subrange_sub(b, i, i + 76, i + 68, i + 72);
    assert(e.subrange(68, 72) =~= u32_bytes(p.size_x));
    lemma_le32_at_of(b, i + 68, p.size_x);
    lemma_subrange_sub(b, i, i + 76, i + 72, i + 76);
    assert(e.subrange(72, 76) =~= u32_bytes(p.size_y));
    lemma_le32_at_of(b, i + 72, p.size_y);
}

proof fn lemma_string_roundtrip(b: Seq<u8>, pos: int, s: Seq<u8>)
    requires
        nul_free(s),
        0 <= pos,
        pos + s.len() + 1 <= b.len(),
        b.subrange(pos, pos + s.len() + 1) == s + seq![0u8],
    ensures
        string_at(b, pos, s),
{
    assert(b.subrange(pos, pos + s.len() as int) =~= s);
    assert(b[pos + s.len() as int] == (s + seq![0u8])[s.len() as int]);
}

/// Entry `j` of the canonical texture-list offset table.
proof fn lemma_texlist_offsets_index(names: Seq<Seq<u8>>, k: int, j: int)
    requires
        0 <= k <= j < names.len(),
    ensures
        enc_texlist_offsets(names, k).subrange(4 * (j - k), 4 * (j - k) + 4) == u32_bytes(
            texlist_off(names, j) as u32,
        ),
    decreases j - k,
{
    lemma_texlist_offsets_len(names, k + 1);
    if k == j {
        assert(enc_texlist_offsets(names, k).subrange(0, 4) =~= u32_bytes(
            texlist_off(names, k) as u32,
        ));
    } else {
        lemma_texlist_offsets_index(names, k + 1, j);
        assert(enc_texlist_offsets(names, k).subrange(4 * (j - k), 4 * (j - k) + 4)
            =~= enc_texlist_offsets(names, k + 1).subrange(4 * (j - k - 1), 4 * (j - k - 1) + 4));
    }
}

/// The string block splits at any index.
proof fn lemma_str_block_split(names: Seq<Seq<u8>>, j: int)
    requires
        0 <= j <= names.len(),
    ensures
        enc_str_block(names) == enc_str_block(names.subrange(0, j)) + enc_str_block(
            names.subrange(j, names.len() as int),
        ),
    decreases j,
{
    if j == 0 {
        assert(names.subrange(0, 0) =~= Seq::<Seq<u8>>::empty());
        assert(names.subrange(0, names.len() as int) =~= names);
    } else {
        assert(names.subrange(0, j) =~= names.subrange(0, j - 1) + seq![names[j - 1]]);
        lemma_enc_str_block_snoc(names.subrange(0, j - 1), names[j - 1]);
        lemma_str_block_split(names, j - 1);
        let tail1 = names.subrange(j - 1, names.len() as int);
        assert(tail1[0] == names[j - 1]);
        assert(tail1.subrange(1, tail1.len() as int) =~= names.subrange(j, names.len() as int));
        assert(enc_str_block(names) =~= enc_str_block(names.subrange(0, j)) + enc_str_block(
            names.subrange(j, names.len() as int),
        ));
    }
}

/// The canonical encoding of a well-formed texture list decodes back to it.
#[verifier::rlimit(100)]
#[verifier::spinoff_prover]
proof fn lemma_texlist_roundtrip(b: Seq<u8>, t: TextureListInner)
    requires
        texlist_wf(t),
        b.len() == 8 + enc_texlist(t).len(),
        b.subrange(8, b.len() as int) == enc_texlist(t),
    ensures
        texlist_parses(b, t),
{
    let names = views_of(t.texture_names@);
    let n = names.len() as int;
    let table = enc_texlist_offsets(names, 0);
    let strs = enc_str_block(names);
    let body = u32_bytes(n as u32) + table + strs;
    lemma_texlist_offsets_len(names, 0);
    lemma_subrange_sub(b, 8, b.len() as int, 8, 12);
    assert(enc_texlist(t).subrange(0, 4) =~= u32_bytes(n as u32));
    lemma_le32_at_of(b, 8, n as u32);
    assert(le32_at(b, 8) == n);
    assert(12 + 4 * n <= b.len());
    assert forall|j: int| 0 <= j < n implies string_at(
        b,
        12 + 4 * n + (le32_at(b, 12 + 4 * j) as int),
        #[trigger] t.texture_names@[j]@,
    ) by {
        lemma_texlist_offsets_index(names, 0, j);
        lemma_subrange_sub(b, 8, b.len() as int, 12 + 4 * j, 12 + 4 * j + 4);
        assert(enc_texlist(t).subrange(4 + 4 * j, 4 + 4 * j + 4) =~= table.subrange(
            4 * j,
            4 * j + 4,
        ));
        lemma_le32_at_of(b, 12 + 4 * j, texlist_off(names, j) as u32);
        let off = texlist_off(names, j);
        crate::encoding::lemma_str_block_prefix_le(names, j);
        assert(0 <= off <= strs.len());
        assert(le32_at(b, 12 + 4 * j) as int == off);
        let sp = 12 + 4 * n + off;
        lemma_str_block_split(names, j);
        let pre = enc_str_block(names.subrange(0, j));
        let tail = names.subrange(j, n);
        assert(tail[0] == names[j]);
        assert(tail.subrange(1, tail.len() as int) =~= names.subrange(j + 1, n));
        assert(enc_str_block(tail) == names[j] + seq![0u8] + enc_str_block(
            names.subrange(j + 1, n),
        ));
        let s = t.texture_names@[j]@;
        assert(names[j] == s);
        assert(sp + s.len() + 1 <= b.len());
        assert(b.subrange(sp, sp + s.len() + 1) =~= s + seq![0u8]) by {
            assert forall|k: int| 0 <= k < s.len() + 1 implies b[sp + k] == #[trigger] (s
                + seq![0u8])[k] by {
                assert(b[sp + k] == b.subrange(8, b.len() as int)[sp + k - 8]);
                assert(enc_texlist(t)[sp + k - 8] == body[sp + k - 8]);
                assert(body[sp + k - 8] == strs[off + k]);
                assert(strs[off + k] == enc_str_block(tail)[k]);
                assert(enc_str_block(tail)[k] == (s + seq![0u8])[k]);
            }
        }
        assert(nul_free(s));
        lemma_string_roundtrip(b, sp, s);
    }
}

/// The canonical encoding of a well-formed picture payload decodes back.
#[verifier::rlimit(100)]
#[verifier::spinoff_prover]
proof fn lemma_picture_roundtrip(b: Seq<u8>, p: ResPictureTest)
    requires
        picture_wf(p),
        b.len() == 8 + enc_picture(p).len(),
        b.subrange(8, b.len() as int) == enc_picture(p),
    ensures
        picture_parses(b, p),
{
    let e = enc_picture(p);
    let cnt = p.tex_coords@.len() as int;
    lemma_enc_pane_len(p.pane);
    crate::encoding::lemma_enc_colors_len(p.vtx_cols@);
    crate::encoding::lemma_enc_quads_len(p.tex_coords@);
    assert(b.len() == 104 + 32 * cnt);
    lemma_subrange_sub(b, 8, b.len() as int, 8, 84);
    assert(e.subrange(0, 76) =~= enc_pane(p.pane));
    lemma_pane_roundtrip(b, 8, p.pane);
    assert forall|j: int| 0 <= j < 4 implies #[trigger] p.vtx_cols@[j] == color_at(b, 84 + 4 * j) by {
        lemma_enc_colors_index(p.vtx_cols@, j);
        lemma_subrange_sub(b, 8, b.len() as int, 84 + 4 * j, 84 + 4 * j + 4);
        assert(e.subrange(76 + 4 * j, 76 + 4 * j + 4) =~= enc_colors(p.vtx_cols@).subrange(
            4 * j,
            4 * j + 4,
        ));
        lemma_color_roundtrip(b, 84 + 4 * j, p.vtx_cols@[j]);
    }
    lemma_subrange_sub(b, 8, b.len() as int, 100, 102);
    assert(e.subrange(92, 94) =~= u16_bytes(p.material_idx));
    crate::bytes::lemma_le16_at_of(b, 100, p.material_idx);
    assert(b[102] == b.subrange(8, b.len() as int)[94]);
    assert(e[94] == cnt as u8);
    assert(b[103] == b.subrange(8, b.len() as int)[95]);
    assert(e[95] == p.flags);
    assert forall|j: int| 0 <= j < cnt implies #[trigger] p.tex_coords@[j] == quad_at(
        b,
        104 + 32 * j,
    ) by {
        lemma_enc_quads_index(p.tex_coords@, j);
        lemma_subrange_sub(b, 8, b.len() as int, 104 + 32 * j, 104 + 32 * j + 32);
        assert(e.subrange(96 + 32 * j, 96 + 32 * j + 32) =~= enc_quads(p.tex_coords@).subrange(
            32 * j,
            32 * j + 32,
        ));
        lemma_quad_roundtrip(b, 104 + 32 * j, p.tex_coords@[j]);
    }
}

/// Element `j` of an encoded color list.
proof fn lemma_enc_colors_index(cs: Seq<ResColorTest>, j: int)
    requires
        0 <= j < cs.len(),
    ensures
        enc_colors(cs).subrange(4 * j, 4 * j + 4) == enc_color(cs[j]),
    decreases j,
{
    crate::encoding::lemma_enc_colors_len(cs.subrange(1, cs.len() as int));
    if j == 0 {
        assert(enc_colors(cs).subrange(0, 4) =~= enc_color(cs[0]));
    } else {
        let tail = cs.subrange(1, cs.len() as int);
        lemma_enc_colors_index(tail, j - 1);
        assert(tail[j - 1] == cs[j]);
        assert(enc_colors(cs).subrange(4 * j, 4 * j + 4) =~= enc_colors(tail).subrange(
            4 * (j - 1),
            4 * (j - 1) + 4,
        ));
    }
}

/// Element `j` of an encoded quad list.
proof fn lemma_enc_quads_index(qs: Seq<ResTexCoordQuad>, j: int)
    requires
        0 <= j < qs.len(),
    ensures
        enc_quads(qs).subrange(32 * j, 32 * j + 32) == enc_quad(qs[j]),
    decreases j,
{
    crate::encoding::lemma_enc_quads_len(qs.subrange(1, qs.len() as int));
    if j == 0 {
        assert(enc_quads(qs).subrange(0, 32) =~= enc_quad(qs[0]));
    } else {
        let tail = qs.subrange(1, qs.len() as int);
        lemma_enc_quads_index(tail, j - 1);
        assert(tail[j - 1] == qs[j]);
        assert(enc_quads(qs).subrange(32 * j, 32 * j + 32) =~= enc_quads(tail).subrange(
            32 * (j - 1),
            32 * (j - 1) + 32,
        ));
    }
}

/// Element `j` of an encoded 32-bit value list.
proof fn lemma_enc_u32s_index(xs: Seq<u32>, j: int)
    requires
        0 <= j < xs.len(),
    ensures
        enc_u32s(xs).subrange(4 * j, 4 * j + 4) == u32_bytes(xs[j]),
    decreases j,
{
    crate::encoding::lemma_enc_u32s_len(xs.subrange(1, xs.len() as int));
    if j == 0 {
        assert(enc_u32s(xs).subrange(0, 4) =~= u32_bytes(xs[0]));
    } else {
        let tail = xs.subrange(1, xs.len() as int);
        lemma_enc_u32s_index(tail, j - 1);
        assert(tail[j - 1] == xs[j]);
        assert(enc_u32s(xs).subrange(4 * j, 4 * j + 4) =~= enc_u32s(tail).subrange(
            4 * (j - 1),
            4 * (j - 1) + 4,
        ));
    }
}


/// The fixed fields of a canonical `txt1` encoding read back correctly.
#[verifier::rlimit(100)]
#[verifier::spinoff_prover]
proof fn lemma_textbox_fixed_roundtrip(b: Seq<u8>, t: ResTextBoxTest)
    requires
        textbox_wf(t),
        b.len() >= 168,
        b.subrange(8, 168) == enc_textbox_fixed(t),
    ensures
        pane_parses(b, 8, t.pane),
        le16_at(b, 84) == t.text@.len() as u16,
        le16_at(b, 86) == t.text_str_bytes,
        le16_at(b, 88) == t.material_idx,
        le16_at(b, 90) == t.font_idx,
        b[92] == t.text_position,
        b[93] == t.text_alignment,
        le16_at(b, 94) == t.text_box_flag,
        le32_at(b, 96) == t.italic_ratio,
        le32_at(b, 100) == 168,
        t.text_cols@[0] == color_at(b, 104),
        t.text_cols@[1] == color_at(b, 108),
        t.font_size == vec2_at(b, 112),
        le32_at(b, 120) == t.char_space,
        le32_at(b, 124) == t.line_space,
        le32_at(b, 128) == txt_id_off(t) as u32,
        t.shadow_offset == vec2_at(b, 132),
        t.shadow_scale == vec2_at(b, 140),
        t.shadow_cols@[0] == color_at(b, 148),
        t.shadow_cols@[1] == color_at(b, 152),
        le32_at(b, 156) == t.shadow_italic_ratio,
        le32_at(b, 160) == txt_lw_off(t) as u32,
        le32_at(b, 164) == txt_pct_off(t) as u32,
{
    let f = enc_textbox_fixed(t);
    let tl = t.text@.len() as int;
    lemma_enc_textbox_fixed_len(t);
    lemma_enc_pane_len(t.pane);
    crate::encoding::lemma_enc_colors_len(t.text_cols@);
    crate::encoding::lemma_enc_colors_len(t.shadow_cols@);
    lemma_subrange_sub(b, 8, 168, 8, 84);
    assert(f.subrange(0, 76) =~= enc_pane(t.pane));
    lemma_pane_roundtrip(b, 8, t.pane);
    lemma_subrange_sub(b, 8, 168, 84, 86);
    assert(f.subrange(76, 78) =~= u16_bytes(tl as u16));
    lemma_le16_at_of(b, 84, tl as u16);
    lemma_subrange_sub(b, 8, 168, 86, 88);
    assert(f.subrange(78, 80) =~= u16_bytes(t.text_str_bytes));
    lemma_le16_at_of(b, 86, t.text_str_bytes);
    lemma_subrange_sub(b, 8, 168, 88, 90);
    assert(f.subrange(80, 82) =~= u16_bytes(t.material_idx));
    lemma_le16_at_of(b, 88, t.material_idx);
    lemma_subrange_sub(b, 8, 168, 90, 92);
    assert(f.subrange(82, 84) =~= u16_bytes(t.font_idx));
    lemma_le16_at_of(b, 90, t.font_idx);
    assert(b[92] == b.subrange(8, 168)[84]);
    assert(f[84] == t.text_position);
    assert(b[93] == b.subrange(8, 168)[85]);
    assert(f[85] == t.text_alignment);
    lemma_subrange_sub(b, 8, 168, 94, 96);
    assert(f.subrange(86, 88) =~= u16_bytes(t.text_box_flag));
    lemma_le16_at_of(b, 94, t.text_box_flag);
    lemma_subrange_sub(b, 8, 168, 96, 100);
    assert(f.subrange(88, 92) =~= u32_bytes(t.italic_ratio));
    lemma_le32_at_of(b, 96, t.italic_ratio);
    lemma_subrange_sub(b, 8, 168, 100, 104);
    assert(f.subrange(92, 96) =~= u32_bytes(168));
    lemma_le32_at_of(b, 100, 168);
    lemma_subrange_sub(b, 8, 168, 104, 112);
    assert(f.subrange(96, 104) =~= enc_colors(t.text_cols@));
    assert(b.subrange(104, 112) == enc_colors(t.text_cols@));
    lemma_enc_colors_index(t.text_cols@, 0);
    lemma_subrange_sub(b, 104, 112, 104, 108);
    lemma_color_roundtrip(b, 104, t.text_cols@[0]);
    lemma_enc_colors_index(t.text_cols@, 1);
    lemma_subrange_sub(b, 104, 112, 108, 112);
    lemma_color_roundtrip(b, 108, t.text_cols@[1]);
    lemma_subrange_sub(b, 8, 168, 112, 120);
    assert(f.subrange(104, 112) =~= enc_vec2(t.font_size));
    lemma_vec2_roundtrip(b, 112, t.font_size);
    lemma_subrange_sub(b, 8, 168, 120, 124);
    assert(f.subrange(112, 116) =~= u32_bytes(t.char_space));
    lemma_le32_at_of(b, 120, t.char_space);
    lemma_subrange_sub(b, 8, 168, 124, 128);
    assert(f.subrange(116, 120) =~= u32_bytes(t.line_space));
    lemma_le32_at_of(b, 124, t.line_space);
    lemma_subrange_sub(b, 8, 168, 128, 132);
    assert(f.subrange(120, 124) =~= u32_bytes(txt_id_off(t) as u32));
    lemma_le32_at_of(b, 128, txt_id_off(t) as u32);
    lemma_subrange_sub(b, 8, 168, 132, 140);
    assert(f.subrange(124, 132) =~= enc_vec2(t.shadow_offset));
    lemma_vec2_roundtrip(b, 132, t.shadow_offset);
    lemma_subrange_sub(b, 8, 168, 140, 148);
    assert(f.subrange(132, 140) =~= enc_vec2(t.shadow_scale));
    lemma_vec2_roundtrip(b, 140, t.shadow_scale);
    lemma_subrange_sub(b, 8, 168, 148, 156);
    assert(f.subrange(140, 148) =~= enc_colors(t.shadow_cols@));
    assert(b.subrange(148, 156) == enc_colors(t.shadow_cols@));
    lemma_enc_colors_index(t.shadow_cols@, 0);
    lemma_subrange_sub(b, 148, 156, 148, 152);
    lemma_color_roundtrip(b, 148, t.shadow_cols@[0]);
    lemma_enc_colors_index(t.shadow_cols@, 1);
    lemma_subrange_sub(b, 148, 156, 152, 156);
    lemma_color_roundtrip(b, 152, t.shadow_cols@[1]);
    lemma_subrange_sub(b, 8, 168, 156, 160);
    assert(f.subrange(148, 152) =~= u32_bytes(t.shadow_italic_ratio));
    lemma_le32_at_of(b, 156, t.shadow_italic_ratio);
    lemma_subrange_sub(b, 8, 168, 160, 164);
    assert(f.subrange(152, 156) =~= u32_bytes(txt_lw_off(t) as u32));
    lemma_le32_at_of(b, 160, txt_lw_off(t) as u32);
    lemma_subrange_sub(b, 8, 168, 164, 168);
    assert(f.subrange(156, 160) =~= u32_bytes(txt_pct_off(t) as u32));
    lemma_le32_at_of(b, 164, txt_pct_off(t) as u32);
}

/// The conditional blocks of a canonical `txt1` encoding read back
/// correctly.
#[verifier::rlimit(100)]
#[verifier::spinoff_prover]
proof fn lemma_textbox_blocks_roundtrip(b: Seq<u8>, t: ResTextBoxTest)
    requires
        textbox_wf(t),
        b.len() == 8 + enc_textbox(t).len(),
        b.subrange(8, b.len() as int) == enc_textbox(t),
    ensures
        b.subrange(168, 168 + t.text@.len() as int) == t.text@,
        match t.text_id {
            Some(id) => string_at(b, txt_id_off(t), id@),
            None => true,
        },
        match t.line_widths {
            Some(lw) => lw_parses(b, txt_lw_off(t), lw),
            None => true,
        },
        match (t.per_character_transform, t.per_character_transform_animation_info) {
            (Some(p), Some(a)) => pct_parses(b, txt_pct_off(t), p, a),
            _ => true,
        },
{
    let e = enc_textbox(t);
    let f = enc_textbox_fixed(t);
    let tl = t.text@.len() as int;
    let idb = txt_id_block(t);
    let lwb = txt_lw_block(t);
    let pctb = txt_pct_block(t);
    lemma_enc_textbox_fixed_len(t);
    lemma_enc_textbox_len(t);
    lemma_subrange_sub(b, 8, b.len() as int, 168, 168 + tl);
    assert(e.subrange(160, 160 + tl) =~= t.text@);
    assert(b.subrange(168, 168 + tl) == t.text@);
    match t.text_id {
        Some(id) => {
            let ioff = 168 + tl;
            assert(txt_id_off(t) == ioff);
            lemma_subrange_sub(b, 8, b.len() as int, ioff, ioff + id@.len() + 1);
            assert(e.subrange(160 + tl, 160 + tl + id@.len() + 1) =~= id@ + seq![0u8]);
            lemma_string_roundtrip(b, ioff, id@);
        },
        None => {},
    }
    match t.line_widths {
        Some(lw) => {
            let loff = txt_lw_off(t);
            let cnt = lw.line_offset@.len() as int;
            crate::encoding::lemma_enc_u32s_len(lw.line_offset@);
            crate::encoding::lemma_enc_u32s_len(lw.line_width@);
            let lstart = loff - 8;
            assert(e.subrange(lstart, lstart + lwb.len()) =~= lwb) by {
                assert(lstart == 160 + tl + idb.len());
            }
            lemma_subrange_sub(b, 8, b.len() as int, loff, loff + lwb.len());
            assert(b.subrange(loff, loff + lwb.len()) == lwb);
            assert(b[loff] == b.subrange(loff, loff + lwb.len())[0]);
            assert(lwb[0] == cnt as u8);
            assert forall|j: int| 0 <= j < cnt implies #[trigger] lw.line_offset@[j] == le32_at(
                b,
                loff + 1 + 4 * j,
            ) by {
                lemma_enc_u32s_index(lw.line_offset@, j);
                lemma_subrange_sub(
                    b,
                    loff,
                    loff + lwb.len(),
                    loff + 1 + 4 * j,
                    loff + 1 + 4 * j + 4,
                );
                assert(lwb.subrange(1 + 4 * j, 1 + 4 * j + 4) =~= enc_u32s(
                    lw.line_offset@,
                ).subrange(4 * j, 4 * j + 4));
                lemma_le32_at_of(b, loff + 1 + 4 * j, lw.line_offset@[j]);
            }
            assert forall|j: int| 0 <= j < cnt implies #[trigger] lw.line_width@[j] == le32_at(
                b,
                loff + 1 + 4 * cnt + 4 * j,
            ) by {
                lemma_enc_u32s_index(lw.line_width@, j);
                lemma_subrange_sub(
                    b,
                    loff,
                    loff + lwb.len(),
                    loff + 1 + 4 * cnt + 4 * j,
                    loff + 1 + 4 * cnt + 4 * j + 4,
                );
                assert(lwb.subrange(1 + 4 * cnt + 4 * j, 1 + 4 * cnt + 4 * j + 4) =~= enc_u32s(
                    lw.line_width@,
                ).subrange(4 * j, 4 * j + 4));
                lemma_le32_at_of(b, loff + 1 + 4 * cnt + 4 * j, lw.line_width@[j]);
            }
            assert(lw_parses(b, loff, lw));
        },
        None => {},
    }
    match (t.per_character_transform, t.per_character_transform_animation_info) {
        (Some(p), Some(a)) => {
            let poff = txt_pct_off(t);
            let pstart = poff - 8;
            assert(e.subrange(pstart, pstart + 20) =~= enc_per_char(p) + enc_anim_info(a)) by {
                assert(pstart == 160 + tl + idb.len() + lwb.len());
            }
            lemma_subrange_sub(b, 8, b.len() as int, poff, poff + 20);
            let blk = enc_per_char(p) + enc_anim_info(a);
            assert(b.subrange(poff, poff + 20) == blk);
            lemma_subrange_sub(b, poff, poff + 20, poff, poff + 4);
            assert(blk.subrange(0, 4) =~= u32_bytes(p.eval_time_offset));
            lemma_le32_at_of(b, poff, p.eval_time_offset);
            lemma_subrange_sub(b, poff, poff + 20, poff + 4, poff + 8);
            assert(blk.subrange(4, 8) =~= u32_bytes(p.eval_time_width));
            lemma_le32_at_of(b, poff + 4, p.eval_time_width);
            assert(b[poff + 8] == b.subrange(poff, poff + 20)[8]);
            assert(blk[8] == p.loop_type);
            assert(b[poff + 9] == b.subrange(poff, poff + 20)[9]);
            assert(blk[9] == p.origin_v);
            assert(b[poff + 10] == b.subrange(poff, poff + 20)[10]);
            assert(blk[10] == p.has_animation_info);
            assert(b[poff + 11] == b.subrange(poff, poff + 20)[11]);
            assert(blk[11] == p.padding);
            lemma_subrange_sub(b, poff, poff + 20, poff + 12, poff + 16);
            assert(blk.subrange(12, 16) =~= u32_bytes(a.kind));
            lemma_le32_at_of(b, poff + 12, a.kind);
            assert(b[poff + 16] == b.subrange(poff, poff + 20)[16]);
            assert(blk[16] == a.count);
            lemma_subrange_sub(b, poff, poff + 20, poff + 17, poff + 20);
            assert(blk.subrange(17, 20) =~= a.padding@);
            assert(pct_parses(b, poff, p, a));
        },
        _ => {},
    }
}

/// The canonical encoding of a well-formed text box decodes back to it.
#[verifier::rlimit(100)]
#[verifier::spinoff_prover]
proof fn lemma_textbox_roundtrip(b: Seq<u8>, t: ResTextBoxTest)
    requires
        textbox_wf(t),
        b.len() == 8 + enc_textbox(t).len(),
        b.subrange(8, b.len() as int) == enc_textbox(t),
    ensures
        textbox_parses(b, t),
{
    let e = enc_textbox(t);
    let f = enc_textbox_fixed(t);
    let tl = t.text@.len() as int;
    lemma_enc_textbox_fixed_len(t);
    lemma_enc_textbox_len(t);
    assert(b.len() >= 168);
    lemma_subrange_sub(b, 8, b.len() as int, 8, 168);
    assert(e.subrange(0, 160) =~= f);
    assert(b.subrange(8, 168) == f);
    lemma_textbox_fixed_roundtrip(b, t);
    lemma_textbox_blocks_roundtrip(b, t);
    assert(textbox_parses(b, t));
}

/// The final-nested-end scan over canonical `prt1` bytes lands at the end
/// of the nested region, or at `cur` when no property has a nested section.
#[verifier::rlimit(100)]
#[verifier::spinoff_prover]
proof fn lemma_last_end_roundtrip(b: Seq<u8>, ps: Seq<ResPartsProperty>, hpos: int, npos: int, cur: int)
    requires
        props_wf(ps),
        0 <= hpos,
        hpos + 40 * ps.len() <= b.len(),
        b.len() <= 0xFFFF_FFFF,
        b.subrange(hpos, hpos + 40 * ps.len()) == enc_prop_heads(ps, npos),
        0 < npos,
        npos + enc_nested(ps).len() <= b.len(),
        b.subrange(npos, npos + enc_nested(ps).len() as int) == enc_nested(ps),
    ensures
        last_nested_end(b, ps.len() as int, hpos, cur) == if enc_nested(ps).len() > 0 {
            npos + enc_nested(ps).len()
        } else {
            cur
        },
    decreases ps.len(),
{
    lemma_enc_prop_heads_len(ps, npos);
    if ps.len() == 0 {
    } else {
        let p = ps[0];
        let rest = ps.subrange(1, ps.len() as int);
        let e1 = enc_opt_section(p.property);
        let e2 = enc_opt_section(p.ext_user_data);
        let e3 = enc_opt_section(p.pane_basic_info);
        let l123 = e1.len() + e2.len() + e3.len();
        let o1: int = if p.property is Some { npos } else { 0 };
        let o2: int = if p.ext_user_data is Some { npos + e1.len() } else { 0 };
        let o3: int = if p.pane_basic_info is Some { npos + e1.len() + e2.len() } else { 0 };
        let head = enc_prop_head(p, o1, o2, o3);
        lemma_enc_prop_heads_len(rest, npos + l123);
        assert(head.len() == 40);
        lemma_props_wf_index(ps, 0);
        lemma_subrange_sub(b, hpos, hpos + 40 * ps.len(), hpos, hpos + 40);
        assert(enc_prop_heads(ps, npos).subrange(0, 40) =~= head);
        assert(b.subrange(hpos, hpos + 40) == head);
        lemma_prop_head_roundtrip(b, hpos, p, o1, o2, o3);
        // sizes of the three blobs read back from their own length fields
        match p.property {
            Some(bx) => {
                lemma_props_wf_index(ps, 0);
                lemma_sec_wf_payload_bound(*bx);
                lemma_subrange_sub(b, npos, npos + enc_nested(ps).len() as int, npos, npos + e1.len() as int);
                assert(enc_nested(ps).subrange(0, e1.len() as int) =~= e1);
                lemma_subrange_sub(b, npos, npos + e1.len() as int, npos + 4, npos + 8);
                assert(e1.subrange(4, 8) =~= u32_bytes(e1.len() as u32));
                lemma_le32_at_of(b, npos + 4, e1.len() as u32);
            },
            None => {},
        }
        match p.ext_user_data {
            Some(bx) => {
                lemma_props_wf_index(ps, 0);
                lemma_sec_wf_payload_bound(*bx);
                lemma_subrange_sub(
                    b,
                    npos,
                    npos + enc_nested(ps).len() as int,
                    npos + e1.len() as int,
                    npos + e1.len() + e2.len(),
                );
                assert(enc_nested(ps).subrange(e1.len() as int, (e1.len() + e2.len()) as int) =~= e2);
                lemma_subrange_sub(b, npos + e1.len() as int, npos + e1.len() + e2.len(), o2 + 4, o2 + 8);
                assert(e2.subrange(4, 8) =~= u32_bytes(e2.len() as u32));
                lemma_le32_at_of(b, o2 + 4, e2.len() as u32);
            },
            None => {},
        }
        match p.pane_basic_info {
            Some(bx) => {
                lemma_props_wf_index(ps, 0);
                lemma_sec_wf_payload_bound(*bx);
                lemma_subrange_sub(
                    b,
                    npos,
                    npos + enc_nested(ps).len() as int,
                    npos + e1.len() + e2.len(),
                    npos + l123,
                );
                assert(enc_nested(ps).subrange((e1.len() + e2.len()) as int, l123 as int) =~= e3);
                lemma_subrange_sub(b, npos + e1.len() + e2.len(), npos + l123, o3 + 4, o3 + 8);
                assert(e3.subrange(4, 8) =~= u32_bytes(e3.len() as u32));
                lemma_le32_at_of(b, o3 + 4, e3.len() as u32);
            },
            None => {},
        }
        let c1: int = if o1 != 0 { o1 + le32_at(b, o1 + 4) } else { cur };
        let c2: int = if o2 != 0 { o2 + le32_at(b, o2 + 4) } else { c1 };
        let c3: int = if o3 != 0 { o3 + le32_at(b, o3 + 4) } else { c2 };
        assert(enc_nested(ps).len() == l123 + enc_nested(rest).len());
        lemma_subrange_sub(b, hpos, hpos + 40 * ps.len(), hpos + 40, hpos + 40 * ps.len());
        assert(enc_prop_heads(ps, npos).subrange(40, 40 * ps.len() as int) =~= enc_prop_heads(
            rest,
            npos + l123,
        ));
        lemma_subrange_sub(
            b,
            npos,
            npos + enc_nested(ps).len() as int,
            npos + l123,
            npos + enc_nested(ps).len() as int,
        );
        assert(enc_nested(ps).subrange(l123 as int, enc_nested(ps).len() as int) =~= enc_nested(
            rest,
        ));
        lemma_last_end_roundtrip(b, rest, hpos + 40, npos + l123, c3);
        assert(last_nested_end(b, ps.len() as int, hpos, cur) == last_nested_end(
            b,
            rest.len() as int,
            hpos + 40,
            c3,
        ));
    }
}


/// The 40-byte property head reads back field by field.
proof fn lemma_prop_head_roundtrip(
    b: Seq<u8>,
    hpos: int,
    p: ResPartsProperty,
    o1: int,
    o2: int,
    o3: int,
)
    requires
        p.name@.len() == 24,
        0 <= hpos,
        hpos + 40 <= b.len(),
        0 <= o1 <= 0xFFFF_FFFF,
        0 <= o2 <= 0xFFFF_FFFF,
        0 <= o3 <= 0xFFFF_FFFF,
        b.subrange(hpos, hpos + 40) == enc_prop_head(p, o1, o2, o3),
    ensures
        p.name@ == b.subrange(hpos, hpos + 24),
        p.usage_flag == b[hpos + 24],
        p.basic_usage_flag == b[hpos + 25],
        p.material_usage_flag == b[hpos + 26],
        p.system_ext_user_data_override_flag == b[hpos + 27],
        le32_at(b, hpos + 28) == o1,
        le32_at(b, hpos + 32) == o2,
        le32_at(b, hpos + 36) == o3,
{
    let head = enc_prop_head(p, o1, o2, o3);
    lemma_subrange_sub(b, hpos, hpos + 40, hpos, hpos + 24);
    assert(head.subrange(0, 24) =~= p.name@);
    assert(b[hpos + 24] == b.subrange(hpos, hpos + 40)[24] && head[24] == p.usage_flag);
    assert(b[hpos + 25] == b.subrange(hpos, hpos + 40)[25] && head[25] == p.basic_usage_flag);
    assert(b[hpos + 26] == b.subrange(hpos, hpos + 40)[26] && head[26] == p.material_usage_flag);
    assert(b[hpos + 27] == b.subrange(hpos, hpos + 40)[27] && head[27]
        == p.system_ext_user_data_override_flag);
    lemma_subrange_sub(b, hpos, hpos + 40, hpos + 28, hpos + 32);
    assert(head.subrange(28, 32) =~= u32_bytes(o1 as u32));
    lemma_le32_at_of(b, hpos + 28, o1 as u32);
    lemma_subrange_sub(b, hpos, hpos + 40, hpos + 32, hpos + 36);
    assert(head.subrange(32, 36) =~= u32_bytes(o2 as u32));
    lemma_le32_at_of(b, hpos + 32, o2 as u32);
    lemma_subrange_sub(b, hpos, hpos + 40, hpos + 36, hpos + 40);
    assert(head.subrange(36, 40) =~= u32_bytes(o3 as u32));
    lemma_le32_at_of(b, hpos + 36, o3 as u32);
}

/// A canonical nested-section span parses as that section.
proof fn lemma_nested_slot_roundtrip(b: Seq<u8>, o: int, sx: BflytSection)
    requires
        sec_wf(sx),
        0 < o,
        o + enc_section(sx).len() <= b.len(),
        b.len() <= 0xFFFF_FFFF,
        b.subrange(o, o + enc_section(sx).len() as int) == enc_section(sx),
    ensures
        nested_section_at(b, o, sx),
    decreases sx, 4int,
{
    lemma_sec_wf_payload_bound(sx);
    let e = enc_section(sx);
    lemma_subrange_sub(b, o, o + e.len() as int, o + 4, o + 8);
    assert(e.subrange(4, 8) =~= u32_bytes(e.len() as u32));
    lemma_le32_at_of(b, o + 4, e.len() as u32);
    lemma_section_roundtrip(sx);
    assert(nested_section_at(b, o, sx));
}

/// How the head table and the nested region decompose at their first
/// property.
proof fn lemma_heads_nested_decomp(ps: Seq<ResPartsProperty>, npos: int)
    requires
        ps.len() > 0,
        props_wf(ps),
    ensures
        ({
            let p = ps[0];
            let rest = ps.subrange(1, ps.len() as int);
            let e1 = enc_opt_section(p.property);
            let e2 = enc_opt_section(p.ext_user_data);
            let e3 = enc_opt_section(p.pane_basic_info);
            let l123 = e1.len() + e2.len() + e3.len();
            &&& enc_nested(ps).len() == l123 + enc_nested(rest).len()
            &&& enc_nested(ps).subrange(0, e1.len() as int) == e1
            &&& enc_nested(ps).subrange(e1.len() as int, (e1.len() + e2.len()) as int) == e2
            &&& enc_nested(ps).subrange((e1.len() + e2.len()) as int, l123 as int) == e3
            &&& enc_nested(ps).subrange(l123 as int, enc_nested(ps).len() as int) == enc_nested(
                rest,
            )
            &&& enc_prop_heads(ps, npos).len() == 40 * ps.len()
            &&& enc_prop_heads(ps, npos).subrange(0, 40) == enc_prop_head(
                p,
                if p.property is Some {
                    npos
                } else {
                    0
                },
                if p.ext_user_data is Some {
                    npos + e1.len()
                } else {
                    0
                },
                if p.pane_basic_info is Some {
                    npos + e1.len() + e2.len()
                } else {
                    0
                },
            )
            &&& enc_prop_heads(ps, npos).subrange(40, 40 * ps.len() as int) == enc_prop_heads(
                rest,
                npos + l123,
            )
        }),
{
    let p = ps[0];
    let rest = ps.subrange(1, ps.len() as int);
    let e1 = enc_opt_section(p.property);
    let e2 = enc_opt_section(p.ext_user_data);
    let e3 = enc_opt_section(p.pane_basic_info);
    let l123 = e1.len() + e2.len() + e3.len();
    lemma_enc_prop_heads_len(ps, npos);
    lemma_enc_prop_heads_len(rest, npos + l123);
    lemma_props_wf_index(ps, 0);
    assert(enc_nested(ps).subrange(0, e1.len() as int) =~= e1);
    assert(enc_nested(ps).subrange(e1.len() as int, (e1.len() + e2.len()) as int) =~= e2);
    assert(enc_nested(ps).subrange((e1.len() + e2.len()) as int, l123 as int) =~= e3);
    assert(enc_nested(ps).subrange(l123 as int, enc_nested(ps).len() as int) =~= enc_nested(rest));
    assert(enc_prop_heads(ps, npos).subrange(0, 40) =~= enc_prop_head(
        p,
        if p.property is Some {
            npos
        } else {
            0
        },
        if p.ext_user_data is Some {
            npos + e1.len()
        } else {
            0
        },
        if p.pane_basic_info is Some {
            npos + e1.len() + e2.len()
        } else {
            0
        },
    ));
    assert(enc_prop_heads(ps, npos).subrange(40, 40 * ps.len() as int) =~= enc_prop_heads(
        rest,
        npos + l123,
    ));
}

/// Canonical property-table bytes parse back to the property list.
#[verifier::rlimit(100)]
#[verifier::spinoff_prover]
proof fn lemma_props_roundtrip(b: Seq<u8>, ps: Seq<ResPartsProperty>, hpos: int, npos: int)
    requires
        props_wf(ps),
        0 <= hpos,
        hpos + 40 * ps.len() <= b.len(),
        b.len() <= 0xFFFF_FFFF,
        b.subrange(hpos, hpos + 40 * ps.len()) == enc_prop_heads(ps, npos),
        0 < npos,
        npos + enc_nested(ps).len() <= b.len(),
        b.subrange(npos, npos + enc_nested(ps).len() as int) == enc_nested(ps),
    ensures
        props_parse(b, hpos, ps),
    decreases ps, 1int,
{
    lemma_enc_prop_heads_len(ps, npos);
    if ps.len() == 0 {
    } else {
        let p = ps[0];
        let rest = ps.subrange(1, ps.len() as int);
        let e1 = enc_opt_section(p.property);
        let e2 = enc_opt_section(p.ext_user_data);
        let e3 = enc_opt_section(p.pane_basic_info);
        let l123 = e1.len() + e2.len() + e3.len();
        let o1: int = if p.property is Some { npos } else { 0 };
        let o2: int = if p.ext_user_data is Some { npos + e1.len() } else { 0 };
        let o3: int = if p.pane_basic_info is Some { npos + e1.len() + e2.len() } else { 0 };
        lemma_props_wf_index(ps, 0);
        lemma_heads_nested_decomp(ps, npos);
        lemma_subrange_sub(b, hpos, hpos + 40 * ps.len(), hpos, hpos + 40);
        lemma_prop_head_roundtrip(b, hpos, p, o1, o2, o3);
        match p.property {
            Some(bx) => {
                lemma_subrange_sub(
                    b,
                    npos,
                    npos + enc_nested(ps).len() as int,
                    npos,
                    npos + e1.len() as int,
                );
                lemma_nested_slot_roundtrip(b, o1, *bx);
            },
            None => {},
        }
        match p.ext_user_data {
            Some(bx) => {
                lemma_subrange_sub(
                    b,
                    npos,
                    npos + enc_nested(ps).len() as int,
                    npos + e1.len() as int,
                    npos + e1.len() + e2.len(),
                );
                lemma_nested_slot_roundtrip(b, o2, *bx);
            },
            None => {},
        }
        match p.pane_basic_info {
            Some(bx) => {
                lemma_subrange_sub(
                    b,
                    npos,
                    npos + enc_nested(ps).len() as int,
                    npos + e1.len() + e2.len(),
                    npos + l123,
                );
                lemma_nested_slot_roundtrip(b, o3, *bx);
            },
            None => {},
        }
        assert(prop_parses(b, hpos, p));
        lemma_subrange_sub(b, hpos, hpos + 40 * ps.len(), hpos + 40, hpos + 40 * ps.len());
        lemma_subrange_sub(
            b,
            npos,
            npos + enc_nested(ps).len() as int,
            npos + l123,
            npos + enc_nested(ps).len() as int,
        );
        lemma_props_roundtrip(b, rest, hpos + 40, npos + l123);
        assert(props_parse(b, hpos, ps));
    }
}

/// The canonical encoding of a well-formed `prt1` payload decodes back.
#[verifier::rlimit(100)]
#[verifier::spinoff_prover]
proof fn lemma_parts_roundtrip(b: Seq<u8>, part: ResPartsTest)
    requires
        parts_wf(part),
        b.len() == 8 + enc_parts(part).len(),
        b.subrange(8, b.len() as int) == enc_parts(part),
    ensures
        part_parses(b, part),
    decreases part, 2int,
{
    let e = enc_parts(part);
    let props = part.properties@;
    let n = props.len() as int;
    let nl = part.part_name@.len() as int;
    let nstart = parts_nested_start(n, nl);
    let pad = pad4(nl + 1);
    lemma_enc_parts_len(part);
    lemma_enc_pane_len(part.pane);
    lemma_enc_prop_heads_len(props, nstart);
    assert(b.len() <= 0xFFFF_FFFF);
    lemma_subrange_sub(b, 8, b.len() as int, 8, 84);
    assert(e.subrange(0, 76) =~= enc_pane(part.pane));
    lemma_pane_roundtrip(b, 8, part.pane);
    lemma_subrange_sub(b, 8, b.len() as int, 84, 88);
    assert(e.subrange(76, 80) =~= u32_bytes(n as u32));
    lemma_le32_at_of(b, 84, n as u32);
    lemma_subrange_sub(b, 8, b.len() as int, 88, 96);
    assert(e.subrange(80, 88) =~= enc_vec2(part.magnify));
    lemma_vec2_roundtrip(b, 88, part.magnify);
    lemma_subrange_sub(b, 8, b.len() as int, 96, 96 + 40 * n);
    assert(e.subrange(88, 88 + 40 * n) =~= enc_prop_heads(props, nstart));
    assert(b.subrange(96, 96 + 40 * n) == enc_prop_heads(props, nstart));
    lemma_subrange_sub(b, 8, b.len() as int, 96 + 40 * n, 96 + 40 * n + nl + 1);
    assert(e.subrange(88 + 40 * n, 88 + 40 * n + nl + 1) =~= part.part_name@ + seq![0u8]);
    lemma_string_roundtrip(b, 96 + 40 * n, part.part_name@);
    lemma_subrange_sub(b, 8, b.len() as int, nstart, b.len() as int);
    assert(e.subrange(nstart - 8, e.len() as int) =~= enc_nested(props));
    assert(b.subrange(nstart, nstart + enc_nested(props).len() as int) == enc_nested(props));
    lemma_props_roundtrip(b, props, 96, nstart);
    lemma_last_end_roundtrip(b, props, 96, nstart, align4(96 + 40 * n + nl + 1));
    assert(last_nested_end(b, n, 96, align4(96 + 40 * n + nl + 1)) == b.len());
    assert(part_parses(b, part));
}

/// The canonical encoding of every well-formed section decodes back to it:
/// decoding inverts encoding.
#[verifier::rlimit(100)]
#[verifier::spinoff_prover]
pub proof fn lemma_section_roundtrip(s: BflytSection)
    requires
        sec_wf(s),
    ensures
        section_parses(enc_section(s), s),
    decreases s, 3int,
{
    let b = enc_section(s);
    let pl = enc_payload(s);
    lemma_sec_wf_payload_bound(s);
    assert(b.len() == 8 + pl.len());
    assert(b.subrange(0, 4) =~= u32_bytes(tag_of(s)));
    lemma_le32_at_of(b, 0, tag_of(s));
    assert(b.subrange(4, 8) =~= u32_bytes(b.len() as u32));
    lemma_le32_at_of(b, 4, b.len() as u32);
    assert(b.subrange(8, b.len() as int) =~= pl);
    match s {
        BflytSection::Pane { pane } => {
            lemma_enc_pane_len(pane);
            lemma_pane_roundtrip(b, 8, pane);
        },
        BflytSection::TextureList { texture_list } => {
            lemma_texlist_roundtrip(b, texture_list);
        },
        BflytSection::Picture { picture } => {
            lemma_picture_roundtrip(b, picture);
        },
        BflytSection::TextBox { text_box } => {
            lemma_textbox_roundtrip(b, *text_box);
        },
        BflytSection::Part { part } => {
            lemma_parts_roundtrip(b, part);
        },
        _ => {},
    }
    assert(section_parses(b, s));
}

/// Canonical back-to-back section bytes parse back to the section list.
proof fn lemma_sections_roundtrip(b: Seq<u8>, pos: int, secs: Seq<BflytSection>)
    requires
        secs_wf(secs),
        0 <= pos,
        pos + enc_sections(secs).len() <= b.len(),
        b.subrange(pos, pos + enc_sections(secs).len() as int) == enc_sections(secs),
    ensures
        sections_parse(b, pos, secs),
        secs_end(b, pos, secs) == pos + enc_sections(secs).len(),
    decreases secs.len(),
{
    if secs.len() == 0 {
    } else {
        let s0 = secs[0];
        let rest = secs.subrange(1, secs.len() as int);
        let e0 = enc_section(s0);
        assert(sec_wf(s0));
        lemma_sec_wf_payload_bound(s0);
        lemma_subrange_sub(b, pos, pos + enc_sections(secs).len() as int, pos, pos + e0.len() as int);
        assert(enc_sections(secs).subrange(0, e0.len() as int) =~= e0);
        assert(b.subrange(pos, pos + e0.len() as int) == e0);
        lemma_subrange_sub(b, pos, pos + e0.len() as int, pos + 4, pos + 8);
        assert(e0.subrange(4, 8) =~= u32_bytes(e0.len() as u32));
        lemma_le32_at_of(b, pos + 4, e0.len() as u32);
        lemma_section_roundtrip(s0);
        lemma_subrange_sub(
            b,
            pos,
            pos + enc_sections(secs).len() as int,
            pos + e0.len() as int,
            pos + enc_sections(secs).len() as int,
        );
        assert(enc_sections(secs).subrange(e0.len() as int, enc_sections(secs).len() as int)
            =~= enc_sections(rest));
        lemma_sections_roundtrip(b, pos + e0.len() as int, rest);
        assert(sections_parse(b, pos, secs));
    }
}

/// The canonical encoding of every well-formed document decodes back to it.
#[verifier::rlimit(100)]
#[verifier::spinoff_prover]
pub proof fn lemma_file_roundtrip(f: BflytFile)
    requires
        file_wf(f),
    ensures
        file_parses(enc_file(f), f),
{
    let b = enc_file(f);
    let body = enc_sections(f.sections@);
    assert(b.len() == 20 + body.len());
    assert(b.subrange(0, 4) =~= u32_bytes(MAGIC_FLYT));
    lemma_le32_at_of(b, 0, MAGIC_FLYT);
    assert(b.subrange(4, 6) =~= u16_bytes(BYTE_ORDER_LITTLE));
    lemma_le16_at_of(b, 4, BYTE_ORDER_LITTLE);
    assert(b.subrange(6, 8) =~= u16_bytes(f.header.header_size));
    lemma_le16_at_of(b, 6, f.header.header_size);
    assert(b.subrange(8, 12) =~= u32_bytes(f.header.version));
    lemma_le32_at_of(b, 8, f.header.version);
    assert(b.subrange(12, 16) =~= u32_bytes(b.len() as u32));
    lemma_le32_at_of(b, 12, b.len() as u32);
    assert(b.subrange(16, 18) =~= u16_bytes(f.sections@.len() as u16));
    lemma_le16_at_of(b, 16, f.sections@.len() as u16);
    assert(b.subrange(18, 20) =~= u16_bytes(f.header.padding));
    lemma_le16_at_of(b, 18, f.header.padding);
    assert(b.subrange(20, b.len() as int) =~= body);
    lemma_sections_roundtrip(b, 20, f.sections@);
    assert(file_parses(b, f));
}

/// Two values that parse from the same pane block bytes encode alike.
proof fn lemma_pane_deterministic(b: Seq<u8>, i: int, p1: ResPaneTest, p2: ResPaneTest)
    requires
        pane_parses(b, i, p1),
        pane_parses(b, i, p2),
    ensures
        enc_pane(p1) == enc_pane(p2),
{
    assert(p1.name@ == p2.name@);
    assert(p1.user_data@ == p2.user_data@);
}

/// Two texture lists that parse from the same bytes encode alike.
pub proof fn lemma_texlist_deterministic(b: Seq<u8>, t1: TextureListInner, t2: TextureListInner)
    requires
        texlist_parses(b, t1),
        texlist_parses(b, t2),
    ensures
        enc_texlist(t1) == enc_texlist(t2),
{
    let n1 = views_of(t1.texture_names@);
    let n2 = views_of(t2.texture_names@);
    assert forall|j: int| 0 <= j < n1.len() implies n1[j] == n2[j] by {
        crate::parse::lemma_string_at_unique(
            b,
            12 + 4 * (le32_at(b, 8) as int) + (le32_at(b, 12 + 4 * j) as int),
            t1.texture_names@[j]@,
            t2.texture_names@[j]@,
        );
    }
    assert(n1 =~= n2);
}

/// Two text boxes that parse from the same bytes encode alike.
#[verifier::rlimit(100)]
#[verifier::spinoff_prover]
pub proof fn lemma_textbox_deterministic(b: Seq<u8>, t1: ResTextBoxTest, t2: ResTextBoxTest)
    requires
        textbox_parses(b, t1),
        textbox_parses(b, t2),
    ensures
        enc_textbox(t1) == enc_textbox(t2),
{
    lemma_pane_deterministic(b, 8, t1.pane, t2.pane);
    assert(t1.text@ == t2.text@);
    assert(t1.text_cols@ =~= t2.text_cols@);
    assert(t1.shadow_cols@ =~= t2.shadow_cols@);
    assert(txt_id_block(t1) == txt_id_block(t2)) by {
        match (t1.text_id, t2.text_id) {
            (Some(id1), Some(id2)) => {
                crate::parse::lemma_string_at_unique(b, le32_at(b, 128) as int, id1@, id2@);
            },
            (None, None) => {},
            _ => {
                assert(false);
            },
        }
    }
    assert(txt_lw_block(t1) == txt_lw_block(t2)) by {
        match (t1.line_widths, t2.line_widths) {
            (Some(l1), Some(l2)) => {
                assert(l1.line_offset@ =~= l2.line_offset@);
                assert(l1.line_width@ =~= l2.line_width@);
            },
            (None, None) => {},
            _ => {
                assert(false);
            },
        }
    }
    assert(txt_pct_block(t1) == txt_pct_block(t2)) by {
        match (t1.per_character_transform, t2.per_character_transform) {
            (Some(p1), Some(p2)) => {
                let a1 = t1.per_character_transform_animation_info->0;
                let a2 = t2.per_character_transform_animation_info->0;
                assert(a1.padding@ == a2.padding@);
                assert(enc_anim_info(a1) == enc_anim_info(a2));
            },
            (None, None) => {},
            _ => {
                assert(false);
            },
        }
    }
    assert(txt_id_off(t1) == txt_id_off(t2));
    assert(txt_lw_off(t1) == txt_lw_off(t2));
    assert(txt_pct_off(t1) == txt_pct_off(t2));
    assert(enc_textbox_fixed(t1) == enc_textbox_fixed(t2));
}

/// Two property lists that parse from the same table bytes encode alike.
#[verifier::rlimit(100)]
#[verifier::spinoff_prover]
proof fn lemma_props_deterministic(
    b: Seq<u8>,
    hpos: int,
    ps1: Seq<ResPartsProperty>,
    ps2: Seq<ResPartsProperty>,
)
    requires
        props_parse(b, hpos, ps1),
        props_parse(b, hpos, ps2),
        ps1.len() == ps2.len(),
    ensures
        enc_nested(ps1) == enc_nested(ps2),
        forall|pos: int| enc_prop_heads(ps1, pos) == #[trigger] enc_prop_heads(ps2, pos),
    decreases ps1, 4int,
{
    if ps1.len() == 0 {
        assert(ps1 =~= Seq::<ResPartsProperty>::empty());
        assert(ps2 =~= Seq::<ResPartsProperty>::empty());
    } else {
        let p1 = ps1[0];
        let p2 = ps2[0];
        assert(prop_parses(b, hpos, p1));
        assert(prop_parses(b, hpos, p2));
        assert(p1.name@ == p2.name@);
        assert(enc_opt_section(p1.property) == enc_opt_section(p2.property)) by {
            lemma_opt_deterministic(b, le32_at(b, hpos + 28) as int, p1.property, p2.property);
        }
        assert(enc_opt_section(p1.ext_user_data) == enc_opt_section(p2.ext_user_data)) by {
            lemma_opt_deterministic(
                b,
                le32_at(b, hpos + 32) as int,
                p1.ext_user_data,
                p2.ext_user_data,
            );
        }
        assert(enc_opt_section(p1.pane_basic_info) == enc_opt_section(p2.pane_basic_info)) by {
            lemma_opt_deterministic(
                b,
                le32_at(b, hpos + 36) as int,
                p1.pane_basic_info,
                p2.pane_basic_info,
            );
        }
        lemma_props_deterministic(
            b,
            hpos + 40,
            ps1.subrange(1, ps1.len() as int),
            ps2.subrange(1, ps2.len() as int),
        );
        assert(enc_nested(ps1) == enc_nested(ps2));
        assert forall|pos: int| enc_prop_heads(ps1, pos) == #[trigger] enc_prop_heads(
            ps2,
            pos,
        ) by {
            assert(p1.property is Some <==> p2.property is Some);
            assert(p1.ext_user_data is Some <==> p2.ext_user_data is Some);
            assert(p1.pane_basic_info is Some <==> p2.pane_basic_info is Some);
            assert(enc_prop_heads(ps1.subrange(1, ps1.len() as int), pos + enc_opt_section(
                p1.property,
            ).len() + enc_opt_section(p1.ext_user_data).len() + enc_opt_section(
                p1.pane_basic_info,
            ).len()) == enc_prop_heads(ps2.subrange(1, ps2.len() as int), pos + enc_opt_section(
                p1.property,
            ).len() + enc_opt_section(p1.ext_user_data).len() + enc_opt_section(
                p1.pane_basic_info,
            ).len()));
        }
    }
}

/// Two optional nested slots that parse from the same stored offset encode
/// alike.
proof fn lemma_opt_deterministic(
    b: Seq<u8>,
    off: int,
    o1: Option<Box<BflytSection>>,
    o2: Option<Box<BflytSection>>,
)
    requires
        opt_nested_parses(b, off, o1),
        opt_nested_parses(b, off, o2),
    ensures
        enc_opt_section(o1) == enc_opt_section(o2),
    decreases o1, 5int,
{
    match (o1, o2) {
        (Some(b1), Some(b2)) => {
            let sz = le32_at(b, off + 4) as int;
            lemma_section_deterministic(b.subrange(off, off + sz), *b1, *b2);
        },
        (None, None) => {},
        _ => {
            assert(false);
        },
    }
}

/// Two parts payloads that parse from the same bytes encode alike.
#[verifier::rlimit(100)]
#[verifier::spinoff_prover]
pub proof fn lemma_parts_deterministic(b: Seq<u8>, part1: ResPartsTest, part2: ResPartsTest)
    requires
        part_parses(b, part1),
        part_parses(b, part2),
    ensures
        enc_parts(part1) == enc_parts(part2),
    decreases part1, 6int,
{
    lemma_pane_deterministic(b, 8, part1.pane, part2.pane);
    let cnt = le32_at(b, 84) as int;
    crate::parse::lemma_string_at_unique(b, 96 + 40 * cnt, part1.part_name@, part2.part_name@);
    lemma_props_deterministic(b, 96, part1.properties@, part2.properties@);
    let nstart = parts_nested_start(cnt, part1.part_name@.len() as int);
    assert(part1.magnify == part2.magnify);
    assert(enc_prop_heads(part1.properties@, nstart) == enc_prop_heads(
        part2.properties@,
        nstart,
    ));
    assert(enc_nested(part1.properties@) == enc_nested(part2.properties@));
    assert(enc_parts(part1) == enc_parts(part2));
}

/// Two sections that parse from the same span encode alike: the parse
/// relation is deterministic, so any two decodes of one buffer agree.
#[verifier::rlimit(100)]
#[verifier::spinoff_prover]
pub proof fn lemma_section_deterministic(b: Seq<u8>, s1: BflytSection, s2: BflytSection)
    requires
        section_parses(b, s1),
        section_parses(b, s2),
    ensures
        enc_section(s1) == enc_section(s2),
    decreases s1, 7int,
{
    let tag = le32_at(b, 0);
    match (s1, s2) {
        (BflytSection::Pane { pane: p1 }, BflytSection::Pane { pane: p2 }) => {
            lemma_pane_deterministic(b, 8, p1, p2);
        },
        (
            BflytSection::TextureList { texture_list: t1 },
            BflytSection::TextureList { texture_list: t2 },
        ) => {
            lemma_texlist_deterministic(b, t1, t2);
        },
        (BflytSection::Picture { picture: p1 }, BflytSection::Picture { picture: p2 }) => {
            assert(p1.vtx_cols@ =~= p2.vtx_cols@);
            assert(p1.tex_coords@ =~= p2.tex_coords@);
            lemma_pane_deterministic(b, 8, p1.pane, p2.pane);
            assert(enc_picture(p1) == enc_picture(p2));
        },
        (BflytSection::TextBox { text_box: t1 }, BflytSection::TextBox { text_box: t2 }) => {
            lemma_textbox_deterministic(b, *t1, *t2);
        },
        (BflytSection::Part { part: p1 }, BflytSection::Part { part: p2 }) => {
            lemma_parts_deterministic(b, p1, p2);
        },
        (BflytSection::Material { data: d1 }, BflytSection::Material { data: d2 }) => {
            assert(d1@ == d2@);
        },
        (BflytSection::Window { data: d1 }, BflytSection::Window { data: d2 }) => {
            assert(d1@ == d2@);
        },
        (BflytSection::Group { data: d1 }, BflytSection::Group { data: d2 }) => {
            assert(d1@ == d2@);
        },
        (BflytSection::Bounding { data: d1 }, BflytSection::Bounding { data: d2 }) => {
            assert(d1@ == d2@);
        },
        (BflytSection::Layout { data: d1 }, BflytSection::Layout { data: d2 }) => {
            assert(d1@ == d2@);
        },
        (BflytSection::FontList { data: d1 }, BflytSection::FontList { data: d2 }) => {
            assert(d1@ == d2@);
        },
        (BflytSection::UserDataList { data: d1 }, BflytSection::UserDataList { data: d2 }) => {
            assert(d1@ == d2@);
        },
        (
            BflytSection::Unknown { tag: g1, data: d1 },
            BflytSection::Unknown { tag: g2, data: d2 },
        ) => {
            assert(g1 == g2 && d1@ == d2@);
        },
        _ => {},
    }
}

/// Two section lists that parse back to back from the same position encode
/// alike and end at the same position.
pub proof fn lemma_sections_deterministic(
    b: Seq<u8>,
    pos: int,
    secs1: Seq<BflytSection>,
    secs2: Seq<BflytSection>,
)
    requires
        sections_parse(b, pos, secs1),
        sections_parse(b, pos, secs2),
        secs1.len() == secs2.len(),
    ensures
        enc_sections(secs1) == enc_sections(secs2),
        secs_end(b, pos, secs1) == secs_end(b, pos, secs2),
    decreases secs1.len(),
{
    if secs1.len() == 0 {
        assert(secs1 =~= Seq::<BflytSection>::empty());
        assert(secs2 =~= Seq::<BflytSection>::empty());
    } else {
        let sz = le32_at(b, pos + 4) as int;
        lemma_section_deterministic(b.subrange(pos, pos + sz), secs1[0], secs2[0]);
        lemma_sections_deterministic(
            b,
            pos + sz,
            secs1.subrange(1, secs1.len() as int),
            secs2.subrange(1, secs2.len() as int),
        );
    }
}

/// Decoding is deterministic at the file level: any two documents that
/// parse from the same buffer re-encode to the same bytes.  Together with
/// `lemma_file_roundtrip` this gives idempotence: one decode-encode pass
/// reaches a fixed point.
pub proof fn lemma_file_deterministic(b: Seq<u8>, f1: BflytFile, f2: BflytFile)
    requires
        file_parses(b, f1),
        file_parses(b, f2),
    ensures
        enc_file(f1) == enc_file(f2),
{
    lemma_sections_deterministic(b, 20, f1.sections@, f2.sections@);
}

/// Round trip: a decoded document re-encodes to bytes that decode to a
/// document with the same encoding, so re-encoding is idempotent —
/// `encode(decode(encode(decode(b))))` equals `encode(decode(b))`.
pub proof fn lemma_reencode_idempotent(b: Seq<u8>, f1: BflytFile, f2: BflytFile)
    requires
        file_parses(b, f1),
        file_parses(enc_file(f1), f2),
    ensures
        enc_file(f2) == enc_file(f1),
{
    lemma_file_roundtrip(f1);
    lemma_file_deterministic(enc_file(f1), f1, f2);
}

/// Byte-identical round trip: a buffer that is the canonical encoding of
/// some well-formed document decodes only to documents that re-encode to
/// exactly that buffer — `encode(decode(b))` is byte-identical to `b`.
pub proof fn lemma_canonical_round_trip(b: Seq<u8>, g: BflytFile, f: BflytFile)
    requires
        file_wf(g),
        b == enc_file(g),
        file_parses(b, f),
    ensures
        enc_file(f) == b,
{
    lemma_file_roundtrip(g);
    lemma_file_deterministic(b, f, g);
}
} // verus!
