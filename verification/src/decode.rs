//! The document decoder.  A section is decoded from its own byte span, so
//! every stored offset is resolved and bounds-checked against that span;
//! the result of a successful decode is pinned, field for field, by the
//! parse relations of `crate::parse`, and is always well formed, so it can
//! be encoded again.

use vstd::prelude::*;

use crate::bytes::{align4, find_nul, le16_at, le32_at, read_bytes, read_u16, read_u32};
use crate::encoding::{
    enc_nested, enc_opt_section, enc_parts, enc_section, enc_str_block, enc_texlist, enc_textbox,
    lemma_enc_parts_len, lemma_enc_str_block_snoc, lemma_enc_textbox_len,
    lemma_texlist_offsets_len, pane_wf, parts_wf, picture_wf, props_wf, sec_wf, texlist_wf,
    textbox_wf, views_of, MAX_PAYLOAD,
};
use crate::error::BflytError;
use crate::model::{
    known_tag, BflytFile, BflytHeader, BflytSection, ResAnimationInfo, ResColorTest,
    ResLineWidths, ResPaneTest, ResPartsProperty, ResPartsTest,
    ResPerCharacterTransform, ResPictureTest, ResTexCoordQuad, ResTextBoxTest, ResVec2Test,
    ResVec3Test, TextureListInner, BYTE_ORDER_LITTLE, MAGIC_FLYT, TAG_BND1, TAG_FNL1, TAG_GRE1,
    TAG_GRP1, TAG_GRS1, TAG_LYT1, TAG_MAT1, TAG_PAE1, TAG_PAN1, TAG_PAS1, TAG_PIC1, TAG_PRT1,
    TAG_TXL1, TAG_TXT1, TAG_USD1, TAG_WND1,
};
use crate::parse::{
    color_at, file_parses, last_nested_end, lw_parses, nested_section_at,
    opt_nested_parses, pane_parses, part_parses, pct_parses, per_char_at, picture_parses,
    prop_parses, props_parse, quad_at, section_parses, sections_parse, secs_end, string_at,
    texlist_parses, textbox_parses, vec2_at, vec3_at, lemma_sections_parse_snoc,
};

verus! {

pub fn decode_color(b: &Vec<u8>, i: usize) -> (r: ResColorTest)
    requires
        i + 4 <= b.len(),
    ensures
        r == color_at(b@, i as int),
{
    ResColorTest { r: b[i], g: b[i + 1], b: b[i + 2], a: b[i + 3] }
}

pub fn decode_vec2(b: &Vec<u8>, i: usize) -> (r: ResVec2Test)
    requires
        i + 8 <= b.len(),
    ensures
        r == vec2_at(b@, i as int),
{
    ResVec2Test { x: read_u32(b, i), y: read_u32(b, i + 4) }
}

pub fn decode_vec3(b: &Vec<u8>, i: usize) -> (r: ResVec3Test)
    requires
        i + 12 <= b.len(),
    ensures
        r == vec3_at(b@, i as int),
{
    ResVec3Test { x: read_u32(b, i), y: read_u32(b, i + 4), z: read_u32(b, i + 8) }
}

/// Decodes the 76-byte common pane block at `i`.
pub fn decode_pane(b: &Vec<u8>, i: usize) -> (r: ResPaneTest)
    requires
        i + 76 <= b.len(),
    ensures
        pane_parses(b@, i as int, r),
        pane_wf(r),
{
    ResPaneTest {
        flag: b[i],
        base_position: b[i + 1],
        alpha: b[i + 2],
        flag_ex: b[i + 3],
        name: read_bytes(b, i + 4, 24),
        user_data: read_bytes(b, i + 28, 8),
        pos: decode_vec3(b, i + 36),
        rot_x: read_u32(b, i + 48),
        rot_y: read_u32(b, i + 52),
        rot_z: read_u32(b, i + 56),
        scale_x: read_u32(b, i + 60),
        scale_y: read_u32(b, i + 64),
        size_x: read_u32(b, i + 68),
        size_y: read_u32(b, i + 72),
    }
}

/// Reads the NUL-terminated string at `start`; the terminator must lie
/// inside the buffer.
pub fn read_string(b: &Vec<u8>, start: usize) -> (r: Result<Vec<u8>, BflytError>)
    requires
        start <= b.len(),
    ensures
        match r {
            Ok(s) => string_at(b@, start as int, s@),
            Err(e) => e == BflytError::TruncatedInput && forall|s: Seq<u8>|
                !string_at(b@, start as int, s),
        },
{
    match find_nul(b, start) {
        Some(j) => {
            let s = read_bytes(b, start, j - start);
            Ok(s)
        },
        None => {
            proof {
                assert forall|s: Seq<u8>| !string_at(b@, start as int, s) by {
                    if string_at(b@, start as int, s) {
                        let t = b@.subrange(start as int, b@.len() as int);
                        assert(t[s.len() as int] == b@[start + s.len()]);
                        assert(false);
                    }
                }
            }
            Err(BflytError::TruncatedInput)
        },
    }
}

/// Decodes a `txl1` section span (tag at 0, length at 4, payload from 8).
/// Also returns the canonical re-encoded payload length.
pub fn decode_texlist(b: &Vec<u8>) -> (r: Result<(TextureListInner, usize), BflytError>)
    requires
        8 <= b.len(),
        b.len() <= 0xFFFF_FFFF,
    ensures
        match r {
            Ok((t, pl)) => texlist_parses(b@, t) && texlist_wf(t) && pl == enc_texlist(t).len(),
            Err(e) => e == BflytError::TruncatedInput || e == BflytError::OffsetOutOfRange || e
                == BflytError::SizeMismatch,
        },
        (exists|t2: TextureListInner| texlist_parses(b@, t2) && texlist_wf(t2)) ==> r is Ok,
{
    if b.len() < 12 {
        proof {
            if exists|t2: TextureListInner| texlist_parses(b@, t2) && texlist_wf(t2) {
                let t2 = choose|t2: TextureListInner|
                    texlist_parses(b@, t2) && texlist_wf(t2);
                assert(false);
            }
        }
        return Err(BflytError::TruncatedInput);
    }
    let cnt32 = read_u32(b, 8);
    let cnt = cnt32 as usize;
    if (b.len() - 12) / 4 < cnt {
        proof {
            if exists|t2: TextureListInner| texlist_parses(b@, t2) && texlist_wf(t2) {
                let t2 = choose|t2: TextureListInner|
                    texlist_parses(b@, t2) && texlist_wf(t2);
                assert(12 + 4 * cnt <= b@.len());
                assert(false);
            }
        }
        return Err(BflytError::TruncatedInput);
    }
    let mut names: Vec<Vec<u8>> = Vec::new();
    let mut strs: u64 = 0;
    let mut j: usize = 0;
    proof {
        assert(views_of(names@) =~= Seq::<Seq<u8>>::empty());
    }
    while j < cnt
        invariant
            cnt == le32_at(b@, 8) as int,
            12 + 4 * cnt <= b.len(),
            b.len() <= 0xFFFF_FFFF,
            j <= cnt,
            names@.len() == j,
            forall|k: int|
                0 <= k < j ==> string_at(
                    b@,
                    12 + 4 * cnt + (le32_at(b@, 12 + 4 * k) as int),
                    #[trigger] names@[k]@,
                ),
            strs == enc_str_block(views_of(names@)).len(),
            strs <= j * (b@.len() + 1),
        decreases cnt - j,
    {
        let off32 = read_u32(b, 12 + 4 * j);
        let off = off32 as usize;
        if off > b.len() - (12 + 4 * cnt) {
            proof {
                if exists|t2: TextureListInner| texlist_parses(b@, t2) && texlist_wf(t2) {
                    let t2 = choose|t2: TextureListInner|
                        texlist_parses(b@, t2) && texlist_wf(t2);
                    assert(string_at(
                        b@,
                        12 + 4 * cnt + (le32_at(b@, 12 + 4 * j) as int),
                        t2.texture_names@[j as int]@,
                    ));
                    assert(false);
                }
            }
            return Err(BflytError::OffsetOutOfRange);
        }
        let s = match read_string(b, 12 + 4 * cnt + off) {
            Ok(s) => s,
            Err(e) => {
                proof {
                    if exists|t2: TextureListInner| texlist_parses(b@, t2) && texlist_wf(t2) {
                        let t2 = choose|t2: TextureListInner|
                            texlist_parses(b@, t2) && texlist_wf(t2);
                        assert(string_at(
                            b@,
                            12 + 4 * cnt + (le32_at(b@, 12 + 4 * j) as int),
                            t2.texture_names@[j as int]@,
                        ));
                        assert(false);
                    }
                }
                return Err(e);
            },
        };
        proof {
            let ghost vn = views_of(names@);
            lemma_enc_str_block_snoc(vn, s@);
            assert(j * (b@.len() + 1) + (b@.len() + 1) == (j + 1) * (b@.len() + 1))
                by (nonlinear_arith);
            assert((j + 1) * (b@.len() + 1) <= 0x40000000 * 0x100000001) by (nonlinear_arith)
                requires
                    0 <= j + 1 <= 0x40000000 && 0 < b@.len() + 1 <= 0x100000001,
            ;
            assert(s@.len() + 1 <= b@.len() + 1);
        }
        let ghost prev = names@;
        strs = strs + (s.len() as u64 + 1);
        names.push(s);
        proof {
            assert(names@ =~= prev + seq![s]);
            assert(views_of(names@) =~= views_of(prev) + seq![s@]);
            assert(strs == enc_str_block(views_of(names@)).len());
        }
        j = j + 1;
    }
    proof {
        assert(strs <= cnt * (b@.len() + 1));
        assert(cnt * (b@.len() + 1) <= 0x40000000 * 0x100000001) by (nonlinear_arith)
            requires
                0 <= cnt <= 0x40000000 && 0 < b@.len() + 1 <= 0x100000001,
        ;
    }
    let t = TextureListInner { texture_names: names };
    proof {
        lemma_texlist_offsets_len(views_of(t.texture_names@), 0);
        assert(texlist_parses(b@, t));
    }
    let body64: u64 = 4 + 4 * (cnt as u64) + strs;
    if body64 > MAX_PAYLOAD as u64 {
        proof {
            assert(enc_texlist(t).len() >= body64);
            if exists|t2: TextureListInner| texlist_parses(b@, t2) && texlist_wf(t2) {
                let t2 = choose|t2: TextureListInner|
                    texlist_parses(b@, t2) && texlist_wf(t2);
                crate::laws::lemma_texlist_deterministic(b@, t2, t);
                assert(false);
            }
        }
        return Err(BflytError::SizeMismatch);
    }
    let body: usize = body64 as usize;
    let pad = crate::bytes::pad4_of(body);
    proof {
        assert(enc_texlist(t).len() == body + pad);
    }
    if body + pad > MAX_PAYLOAD as usize {
        proof {
            if exists|t2: TextureListInner| texlist_parses(b@, t2) && texlist_wf(t2) {
                let t2 = choose|t2: TextureListInner|
                    texlist_parses(b@, t2) && texlist_wf(t2);
                crate::laws::lemma_texlist_deterministic(b@, t2, t);
                assert(false);
            }
        }
        return Err(BflytError::SizeMismatch);
    }
    proof {
        assert(texlist_wf(t));
    }
    Ok((t, body + pad))
}

/// Decodes a `pic1` section span.
pub fn decode_picture(b: &Vec<u8>) -> (r: Result<ResPictureTest, BflytError>)
    requires
        8 <= b.len(),
        b.len() <= 0xFFFF_FFFF,
    ensures
        match r {
            Ok(p) => picture_parses(b@, p) && picture_wf(p),
            Err(e) => e == BflytError::TruncatedInput || e == BflytError::SizeMismatch,
        },
        (exists|p2: ResPictureTest| picture_parses(b@, p2) && picture_wf(p2)) ==> r is Ok,
{
    if b.len() < 104 {
        proof {
            if exists|p2: ResPictureTest| picture_parses(b@, p2) && picture_wf(p2) {
                let p2 = choose|p2: ResPictureTest| picture_parses(b@, p2) && picture_wf(p2);
                assert(false);
            }
        }
        return Err(BflytError::TruncatedInput);
    }
    let cnt = b[102] as usize;
    if b.len() != 104 + 32 * cnt {
        proof {
            if exists|p2: ResPictureTest| picture_parses(b@, p2) && picture_wf(p2) {
                let p2 = choose|p2: ResPictureTest| picture_parses(b@, p2) && picture_wf(p2);
                assert(b@.len() == 104 + 32 * (b@[102] as int));
                assert(false);
            }
        }
        return Err(BflytError::SizeMismatch);
    }
    let pane = decode_pane(b, 8);
    let mut vtx_cols: Vec<ResColorTest> = Vec::new();
    let mut j: usize = 0;
    while j < 4
        invariant
            104 + 32 * (b@[102] as int) == b.len(),
            j <= 4,
            vtx_cols@.len() == j,
            forall|k: int| 0 <= k < j ==> #[trigger] vtx_cols@[k] == color_at(b@, 84 + 4 * k),
        decreases 4 - j,
    {
        vtx_cols.push(decode_color(b, 84 + 4 * j));
        j = j + 1;
    }
    let material_idx = read_u16(b, 100);
    let flags = b[103];
    let mut tex_coords: Vec<ResTexCoordQuad> = Vec::new();
    let mut k: usize = 0;
    while k < cnt
        invariant
            cnt == b@[102] as int,
            104 + 32 * cnt <= b.len(),
            k <= cnt,
            tex_coords@.len() == k,
            forall|q: int| 0 <= q < k ==> #[trigger] tex_coords@[q] == quad_at(b@, 104 + 32 * q),
        decreases cnt - k,
    {
        let base = 104 + 32 * k;
        let quad = ResTexCoordQuad {
            tl: decode_vec2(b, base),
            tr: decode_vec2(b, base + 8),
            bl: decode_vec2(b, base + 16),
            br: decode_vec2(b, base + 24),
        };
        tex_coords.push(quad);
        k = k + 1;
    }
    let p = ResPictureTest { pane, vtx_cols, material_idx, flags, tex_coords };
    proof {
        assert(picture_parses(b@, p));
    }
    Ok(p)
}


/// Decodes a `txt1` section span, following each stored offset within the
/// span; a zero offset yields an absent block, never an empty present one.
/// Also returns the canonical re-encoded payload length.
#[verifier::rlimit(100)]
#[verifier::spinoff_prover]
pub fn decode_textbox(b: &Vec<u8>) -> (r: Result<(ResTextBoxTest, usize), BflytError>)
    requires
        8 <= b.len(),
        b.len() <= 0xFFFF_FFFF,
    ensures
        match r {
            Ok((t, pl)) => textbox_parses(b@, t) && textbox_wf(t) && pl == enc_textbox(t).len(),
            Err(e) => e == BflytError::TruncatedInput || e == BflytError::OffsetOutOfRange || e
                == BflytError::SizeMismatch,
        },
        (exists|t2: ResTextBoxTest| textbox_parses(b@, t2) && textbox_wf(t2)) ==> r is Ok,
        ({
            let lw_off = le32_at(b@, 160) as int;
            &&& 168 <= b@.len()
            &&& le32_at(b@, 100) + le16_at(b@, 84) <= b@.len()
            &&& (le32_at(b@, 128) == 0 || (le32_at(b@, 128) <= b@.len() && exists|s: Seq<u8>|
                string_at(b@, le32_at(b@, 128) as int, s)))
            &&& lw_off != 0
            &&& lw_off + 1 <= b@.len()
            &&& lw_off + 1 + 8 * (b@[lw_off] as int) > b@.len()
        }) ==> r == Result::<(ResTextBoxTest, usize), BflytError>::Err(
            BflytError::TruncatedInput,
        ),
{
    if b.len() < 168 {
        proof {
            if exists|t2: ResTextBoxTest| textbox_parses(b@, t2) && textbox_wf(t2) {
                let t2 = choose|t2: ResTextBoxTest| textbox_parses(b@, t2) && textbox_wf(t2);
                assert(false);
            }
        }
        return Err(BflytError::TruncatedInput);
    }
    let pane = decode_pane(b, 8);
    let text_len16 = read_u16(b, 84);
    let text_len = text_len16 as usize;
    let text_str_bytes = read_u16(b, 86);
    let material_idx = read_u16(b, 88);
    let font_idx = read_u16(b, 90);
    let text_position = b[92];
    let text_alignment = b[93];
    let text_box_flag = read_u16(b, 94);
    let italic_ratio = read_u32(b, 96);
    let text_off32 = read_u32(b, 100);
    if text_off32 as u64 + text_len as u64 > b.len() as u64 {
        proof {
            if exists|t2: ResTextBoxTest| textbox_parses(b@, t2) && textbox_wf(t2) {
                let t2 = choose|t2: ResTextBoxTest| textbox_parses(b@, t2) && textbox_wf(t2);
                assert(false);
            }
        }
        return Err(BflytError::OffsetOutOfRange);
    }
    let text = read_bytes(b, text_off32 as usize, text_len);
    let mut text_cols: Vec<ResColorTest> = Vec::new();
    text_cols.push(decode_color(b, 104));
    text_cols.push(decode_color(b, 108));
    let font_size = decode_vec2(b, 112);
    let char_space = read_u32(b, 120);
    let line_space = read_u32(b, 124);
    let id_off32 = read_u32(b, 128);
    let text_id: Option<Vec<u8>> = if id_off32 != 0 {
        if id_off32 as u64 > b.len() as u64 {
            proof {
                if exists|t2: ResTextBoxTest| textbox_parses(b@, t2) && textbox_wf(t2) {
                    let t2 = choose|t2: ResTextBoxTest| textbox_parses(b@, t2) && textbox_wf(t2);
                    assert(t2.text_id is Some);
                    assert(string_at(b@, id_off32 as int, t2.text_id->0@));
                    assert(false);
                }
            }
            return Err(BflytError::OffsetOutOfRange);
        }
        match read_string(b, id_off32 as usize) {
            Ok(s) => Some(s),
            Err(e) => {
                proof {
                    if exists|t2: ResTextBoxTest| textbox_parses(b@, t2) && textbox_wf(t2) {
                        let t2 = choose|t2: ResTextBoxTest| textbox_parses(b@, t2) && textbox_wf(t2);
                        assert(t2.text_id is Some);
                        assert(string_at(b@, id_off32 as int, t2.text_id->0@));
                        assert(false);
                    }
                }
                return Err(e);
            },
        }
    } else {
        None
    };
    let shadow_offset = decode_vec2(b, 132);
    let shadow_scale = decode_vec2(b, 140);
    let mut shadow_cols: Vec<ResColorTest> = Vec::new();
    shadow_cols.push(decode_color(b, 148));
    shadow_cols.push(decode_color(b, 152));
    let shadow_italic_ratio = read_u32(b, 156);
    let lw_off32 = read_u32(b, 160);
    let line_widths: Option<ResLineWidths> = if lw_off32 != 0 {
        if lw_off32 as u64 + 1 > b.len() as u64 {
            proof {
                if exists|t2: ResTextBoxTest| textbox_parses(b@, t2) && textbox_wf(t2) {
                    let t2 = choose|t2: ResTextBoxTest| textbox_parses(b@, t2) && textbox_wf(t2);
                    assert(t2.line_widths is Some);
                    assert(lw_parses(b@, lw_off32 as int, t2.line_widths->0));
                    assert(false);
                }
            }
            return Err(BflytError::OffsetOutOfRange);
        }
        let off = lw_off32 as usize;
        let cnt = b[off] as usize;
        if off as u64 + 1 + 8 * (cnt as u64) > b.len() as u64 {
            proof {
                if exists|t2: ResTextBoxTest| textbox_parses(b@, t2) && textbox_wf(t2) {
                    let t2 = choose|t2: ResTextBoxTest| textbox_parses(b@, t2) && textbox_wf(t2);
                    assert(t2.line_widths is Some);
                    assert(lw_parses(b@, lw_off32 as int, t2.line_widths->0));
                    assert(false);
                }
            }
            return Err(BflytError::TruncatedInput);
        }
        let mut line_offset: Vec<u32> = Vec::new();
        let mut j: usize = 0;
        while j < cnt
            invariant
                off + 1 + 8 * cnt <= b.len(),
                cnt == b@[off as int] as int,
                j <= cnt,
                line_offset@.len() == j,
                forall|k: int|
                    0 <= k < j ==> #[trigger] line_offset@[k] == le32_at(b@, off + 1 + 4 * k),
            decreases cnt - j,
        {
            line_offset.push(read_u32(b, off + 1 + 4 * j));
            j = j + 1;
        }
        let mut line_width: Vec<u32> = Vec::new();
        let mut k: usize = 0;
        while k < cnt
            invariant
                off + 1 + 8 * cnt <= b.len(),
                cnt == b@[off as int] as int,
                k <= cnt,
                line_width@.len() == k,
                forall|q: int|
                    0 <= q < k ==> #[trigger] line_width@[q] == le32_at(
                        b@,
                        off + 1 + 4 * cnt + 4 * q,
                    ),
            decreases cnt - k,
        {
            line_width.push(read_u32(b, off + 1 + 4 * cnt + 4 * k));
            k = k + 1;
        }
        Some(ResLineWidths { line_offset, line_width })
    } else {
        None
    };
    let pct_off32 = read_u32(b, 164);
    let (per_character_transform, per_character_transform_animation_info): (
        Option<ResPerCharacterTransform>,
        Option<ResAnimationInfo>,
    ) = if pct_off32 != 0 {
        if pct_off32 as u64 + 20 > b.len() as u64 {
            proof {
                if exists|t2: ResTextBoxTest| textbox_parses(b@, t2) && textbox_wf(t2) {
                    let t2 = choose|t2: ResTextBoxTest| textbox_parses(b@, t2) && textbox_wf(t2);
                    assert(t2.per_character_transform is Some
                        && t2.per_character_transform_animation_info is Some);
                    assert(pct_parses(
                        b@,
                        pct_off32 as int,
                        t2.per_character_transform->0,
                        t2.per_character_transform_animation_info->0,
                    ));
                    assert(false);
                }
            }
            return Err(BflytError::OffsetOutOfRange);
        }
        let off = pct_off32 as usize;
        let p = ResPerCharacterTransform {
            eval_time_offset: read_u32(b, off),
            eval_time_width: read_u32(b, off + 4),
            loop_type: b[off + 8],
            origin_v: b[off + 9],
            has_animation_info: b[off + 10],
            padding: b[off + 11],
        };
        let a = ResAnimationInfo {
            kind: read_u32(b, off + 12),
            count: b[off + 16],
            padding: read_bytes(b, off + 17, 3),
        };
        (Some(p), Some(a))
    } else {
        (None, None)
    };
    let idb: u64 = match &text_id {
        Some(id) => id.len() as u64 + 1,
        None => 0,
    };
    let lwb: u64 = match &line_widths {
        Some(lw) => 1 + 8 * (lw.line_offset.len() as u64),
        None => 0,
    };
    let pctb: u64 = if pct_off32 != 0 {
        20
    } else {
        0
    };
    let body64: u64 = 160 + text_len as u64 + idb + lwb + pctb;
    let rem: u64 = body64 % 4;
    let pad64: u64 = if rem == 0 {
        0
    } else {
        4 - rem
    };
    let t = ResTextBoxTest {
        pane,
        text_str_bytes,
        material_idx,
        font_idx,
        text_position,
        text_alignment,
        text_box_flag,
        italic_ratio,
        text_cols,
        font_size,
        char_space,
        line_space,
        shadow_offset,
        shadow_scale,
        shadow_cols,
        shadow_italic_ratio,
        text,
        text_id,
        line_widths,
        per_character_transform,
        per_character_transform_animation_info,
    };
    proof {
        lemma_enc_textbox_len(t);
        assert(textbox_parses(b@, t));
        assert(enc_textbox(t).len() == body64 + pad64);
    }
    if body64 + pad64 > MAX_PAYLOAD as u64 {
        proof {
            if exists|t2: ResTextBoxTest| textbox_parses(b@, t2) && textbox_wf(t2) {
                let t2 = choose|t2: ResTextBoxTest| textbox_parses(b@, t2) && textbox_wf(t2);
                crate::laws::lemma_textbox_deterministic(b@, t2, t);
                assert(false);
            }
        }
        return Err(BflytError::SizeMismatch);
    }
    proof {
        assert(textbox_wf(t));
    }
    Ok((t, (body64 + pad64) as usize))
}

/// Decodes one optional nested slot of a `prt1` property: a zero stored
/// offset is an absent slot; a nonzero one is followed within the span.
fn decode_nested(b: &Vec<u8>, off32: u32, fuel: usize) -> (r: Result<
    (Option<Box<BflytSection>>, usize, usize),
    BflytError,
>)
    ensures
        match r {
            Ok((o, end, cl)) => {
                &&& opt_nested_parses(b@, off32 as int, o)
                &&& crate::encoding::opt_section_wf(o)
                &&& cl == enc_opt_section(o).len()
                &&& cl <= 0xFFFF_FFFF
                &&& o is Some ==> end == off32 as int + le32_at(b@, off32 as int + 4) as int
                    && end <= b.len()
                &&& o is None ==> end == 0
            },
            Err(e) => true,
        },
        (exists|o2: Option<Box<BflytSection>>|
            opt_nested_parses(b@, off32 as int, o2) && crate::parse::opt_depth(o2)
                < fuel) ==> r is Ok,
    decreases fuel, 0int,
{
    if off32 == 0 {
        return Ok((None, 0, 0));
    }
    if fuel == 0 {
        proof {
            if exists|o2: Option<Box<BflytSection>>|
                opt_nested_parses(b@, off32 as int, o2) && crate::parse::opt_depth(o2) < fuel {
                let o2 = choose|o2: Option<Box<BflytSection>>|
                    opt_nested_parses(b@, off32 as int, o2) && crate::parse::opt_depth(o2) < fuel;
                assert(o2 is Some);
                crate::parse::lemma_sec_depth_nonneg(*o2->0);
                assert(false);
            }
        }
        return Err(BflytError::OffsetOutOfRange);
    }
    let off = off32 as usize;
    if off > b.len() {
        proof {
            if exists|o2: Option<Box<BflytSection>>|
                opt_nested_parses(b@, off32 as int, o2) && crate::parse::opt_depth(o2) < fuel {
                let o2 = choose|o2: Option<Box<BflytSection>>|
                    opt_nested_parses(b@, off32 as int, o2) && crate::parse::opt_depth(o2) < fuel;
                assert(o2 is Some);
                assert(crate::parse::section_at(b@, off32 as int, *o2->0));
                assert(false);
            }
        }
        return Err(BflytError::OffsetOutOfRange);
    }
    match decode_section_at(b, off, fuel - 1) {
        Ok((s, n, cl)) => {
            proof {
                assert(nested_section_at(b@, off32 as int, s));
            }
            Ok((Some(Box::new(s)), off + n, cl))
        },
        Err(e) => {
            proof {
                if exists|o2: Option<Box<BflytSection>>|
                    opt_nested_parses(b@, off32 as int, o2) && crate::parse::opt_depth(o2)
                        < fuel {
                    let o2 = choose|o2: Option<Box<BflytSection>>|
                        opt_nested_parses(b@, off32 as int, o2) && crate::parse::opt_depth(o2)
                            < fuel;
                    assert(o2 is Some);
                    assert(crate::parse::section_at(b@, off32 as int, *o2->0));
                    assert(crate::parse::sec_depth(*o2->0) < fuel - 1);
                    assert(false);
                }
            }
            Err(e)
        },
    }
}

/// What a parsed `prt1` witness says about one property's three slots.
proof fn lemma_parts_slot_witness(b: Seq<u8>, p2: ResPartsTest, j: int, fuel: int)
    requires
        part_parses(b, p2),
        crate::parse::props_depth(p2.properties@) < fuel,
        0 <= j < le32_at(b, 84) as int,
    ensures
        opt_nested_parses(
            b,
            le32_at(b, 96 + 40 * j + 28) as int,
            p2.properties@[j].property,
        ),
        opt_nested_parses(
            b,
            le32_at(b, 96 + 40 * j + 32) as int,
            p2.properties@[j].ext_user_data,
        ),
        opt_nested_parses(
            b,
            le32_at(b, 96 + 40 * j + 36) as int,
            p2.properties@[j].pane_basic_info,
        ),
        crate::parse::opt_depth(p2.properties@[j].property) < fuel,
        crate::parse::opt_depth(p2.properties@[j].ext_user_data) < fuel,
        crate::parse::opt_depth(p2.properties@[j].pane_basic_info) < fuel,
{
    crate::parse::lemma_props_parse_index(b, 96, p2.properties@, j);
    crate::parse::lemma_props_depth_index(p2.properties@, j);
    assert(prop_parses(b, 96 + 40 * j, p2.properties@[j]));
}

/// Decodes a `prt1` section span: the pane block, the property table, the
/// part name, then every nested section fetched through the property
/// offsets; the final nested section must end exactly at the declared
/// section length.  Also returns the canonical re-encoded payload length.
#[verifier::rlimit(100)]
#[verifier::spinoff_prover]
fn decode_parts(b: &Vec<u8>, fuel: usize) -> (r: Result<(ResPartsTest, usize), BflytError>)
    requires
        8 <= b.len(),
        b.len() <= 0xFFFF_FFFF,
    ensures
        match r {
            Ok((part, pl)) => part_parses(b@, part) && parts_wf(part) && pl == enc_parts(
                part,
            ).len(),
            Err(e) => true,
        },
        (exists|p2: ResPartsTest|
            part_parses(b@, p2) && parts_wf(p2) && crate::parse::props_depth(p2.properties@)
                < fuel) ==> r is Ok,
    decreases fuel, 1int,
{
    if b.len() < 96 {
        proof {
            if exists|p2: ResPartsTest| part_parses(b@, p2) && parts_wf(p2) && crate::parse::props_depth(p2.properties@) < fuel {
                let p2 = choose|p2: ResPartsTest|
                    part_parses(b@, p2) && parts_wf(p2) && crate::parse::props_depth(
                        p2.properties@,
                    ) < fuel;
                assert(false);
            }
        }
        return Err(BflytError::TruncatedInput);
    }
    let pane = decode_pane(b, 8);
    let cnt32 = read_u32(b, 84);
    let cnt = cnt32 as usize;
    if 96 + 40 * (cnt as u64) > b.len() as u64 {
        proof {
            if exists|p2: ResPartsTest| part_parses(b@, p2) && parts_wf(p2) && crate::parse::props_depth(p2.properties@) < fuel {
                let p2 = choose|p2: ResPartsTest|
                    part_parses(b@, p2) && parts_wf(p2) && crate::parse::props_depth(
                        p2.properties@,
                    ) < fuel;
                assert(96 + 40 * (le32_at(b@, 84) as int) <= b@.len());
                assert(false);
            }
        }
        return Err(BflytError::TruncatedInput);
    }
    let magnify = decode_vec2(b, 88);
    let mut props: Vec<ResPartsProperty> = Vec::new();
    let mut have_any: bool = false;
    let mut last_end: usize = 0;
    let mut clsum: u64 = 0;
    let mut j: usize = 0;
    proof {
        assert(props@.subrange(0, 0) =~= Seq::<ResPartsProperty>::empty());
        assert(props_parse(b@, 96, Seq::<ResPartsProperty>::empty()));
        assert(props_wf(Seq::<ResPartsProperty>::empty()));
        assert(enc_nested(Seq::<ResPartsProperty>::empty()).len() == 0);
    }
    while j < cnt
        invariant
            96 + 40 * cnt <= b.len(),
            b.len() <= 0xFFFF_FFFF,
            cnt == le32_at(b@, 84) as int,
            j <= cnt,
            props@.len() == j,
            props_parse(b@, 96, props@),
            props_wf(props@),
            clsum == enc_nested(props@).len(),
            clsum <= 3 * j * 0x1_0000_0000,
            have_any ==> last_end <= b.len(),
            forall|d: int|
                #[trigger] last_nested_end(b@, cnt as int, 96, d) == last_nested_end(
                    b@,
                    cnt - j,
                    96 + 40 * j,
                    if have_any {
                        last_end as int
                    } else {
                        d
                    },
                ),
        decreases cnt - j,
    {
        let hp = 96 + 40 * j;
        let name = read_bytes(b, hp, 24);
        let usage_flag = b[hp + 24];
        let basic_usage_flag = b[hp + 25];
        let material_usage_flag = b[hp + 26];
        let system_ext_user_data_override_flag = b[hp + 27];
        let o1 = read_u32(b, hp + 28);
        let o2 = read_u32(b, hp + 32);
        let o3 = read_u32(b, hp + 36);
        let (property, e1, c1) = match decode_nested(b, o1, fuel) {
            Ok(x) => x,
            Err(e) => {
                proof {
                    if exists|p2: ResPartsTest|
                        part_parses(b@, p2) && parts_wf(p2) && crate::parse::props_depth(
                            p2.properties@,
                        ) < fuel {
                        let p2 = choose|p2: ResPartsTest|
                            part_parses(b@, p2) && parts_wf(p2) && crate::parse::props_depth(
                                p2.properties@,
                            ) < fuel;
                        lemma_parts_slot_witness(b@, p2, j as int, fuel as int);
                        assert(96 + 40 * (j as int) + 28 == hp + 28);
                        assert(96 + 40 * (j as int) + 32 == hp + 32);
                        assert(96 + 40 * (j as int) + 36 == hp + 36);
                        assert(false);
                    }
                }
                return Err(e);
            },
        };
        let (ext_user_data, e2, c2) = match decode_nested(b, o2, fuel) {
            Ok(x) => x,
            Err(e) => {
                proof {
                    if exists|p2: ResPartsTest|
                        part_parses(b@, p2) && parts_wf(p2) && crate::parse::props_depth(
                            p2.properties@,
                        ) < fuel {
                        let p2 = choose|p2: ResPartsTest|
                            part_parses(b@, p2) && parts_wf(p2) && crate::parse::props_depth(
                                p2.properties@,
                            ) < fuel;
                        lemma_parts_slot_witness(b@, p2, j as int, fuel as int);
                        assert(96 + 40 * (j as int) + 28 == hp + 28);
                        assert(96 + 40 * (j as int) + 32 == hp + 32);
                        assert(96 + 40 * (j as int) + 36 == hp + 36);
                        assert(false);
                    }
                }
                return Err(e);
            },
        };
        let (pane_basic_info, e3, c3) = match decode_nested(b, o3, fuel) {
            Ok(x) => x,
            Err(e) => {
                proof {
                    if exists|p2: ResPartsTest|
                        part_parses(b@, p2) && parts_wf(p2) && crate::parse::props_depth(
                            p2.properties@,
                        ) < fuel {
                        let p2 = choose|p2: ResPartsTest|
                            part_parses(b@, p2) && parts_wf(p2) && crate::parse::props_depth(
                                p2.properties@,
                            ) < fuel;
                        lemma_parts_slot_witness(b@, p2, j as int, fuel as int);
                        assert(96 + 40 * (j as int) + 28 == hp + 28);
                        assert(96 + 40 * (j as int) + 32 == hp + 32);
                        assert(96 + 40 * (j as int) + 36 == hp + 36);
                        assert(false);
                    }
                }
                return Err(e);
            },
        };
        let p = ResPartsProperty {
            name,
            usage_flag,
            basic_usage_flag,
            material_usage_flag,
            system_ext_user_data_override_flag,
            property,
            ext_user_data,
            pane_basic_info,
        };
        proof {
            crate::parse::lemma_props_parse_snoc(b@, 96, props@, p);
            crate::encoding::lemma_props_wf_snoc(props@, p);
            crate::encoding::lemma_enc_nested_snoc(props@, p);
            assert(3 * j * 0x1_0000_0000 + 3 * 0x1_0000_0000 == 3 * (j + 1) * 0x1_0000_0000)
                by (nonlinear_arith);
        }
        let ghost prev = props@;
        let ghost old_have = have_any;
        let ghost old_last: int = last_end as int;
        if p.property.is_some() {
            have_any = true;
            last_end = e1;
        }
        if p.ext_user_data.is_some() {
            have_any = true;
            last_end = e2;
        }
        if p.pane_basic_info.is_some() {
            have_any = true;
            last_end = e3;
        }
        clsum = clsum + (c1 as u64) + (c2 as u64) + (c3 as u64);
        props.push(p);
        proof {
            assert(props@ =~= prev + seq![p]);
            assert forall|d: int|
                #[trigger] last_nested_end(b@, cnt as int, 96, d) == last_nested_end(
                    b@,
                    cnt - (j + 1),
                    96 + 40 * (j + 1),
                    if have_any {
                        last_end as int
                    } else {
                        d
                    },
                ) by {
                let cur0: int = if old_have {
                    old_last
                } else {
                    d
                };
                assert(last_nested_end(b@, cnt as int, 96, d) == last_nested_end(
                    b@,
                    cnt - j,
                    96 + 40 * j,
                    cur0,
                ));
            }
        }
        j = j + 1;
    }
    let name_pos = 96 + 40 * cnt;
    let part_name = match read_string(b, name_pos) {
        Ok(s) => s,
        Err(e) => {
            proof {
                if exists|p2: ResPartsTest| part_parses(b@, p2) && parts_wf(p2) && crate::parse::props_depth(p2.properties@) < fuel {
                    let p2 = choose|p2: ResPartsTest|
                    part_parses(b@, p2) && parts_wf(p2) && crate::parse::props_depth(
                        p2.properties@,
                    ) < fuel;
                    assert(string_at(b@, name_pos as int, p2.part_name@));
                    assert(false);
                }
            }
            return Err(e);
        },
    };
    let nl = part_name.len();
    let nrem: u64 = (name_pos as u64 + nl as u64 + 1) % 4;
    let npad: u64 = if nrem == 0 {
        0
    } else {
        4 - nrem
    };
    let default64: u64 = name_pos as u64 + nl as u64 + 1 + npad;
    let end64: u64 = if have_any {
        last_end as u64
    } else {
        default64
    };
    let part = ResPartsTest { pane, magnify, properties: props, part_name };
    proof {
        assert(props@.subrange(0, props@.len() as int) =~= props@);
        assert(last_nested_end(b@, cnt as int, 96, align4(name_pos + part.part_name@.len() + 1))
            == end64) by {
            let d = align4(name_pos + part.part_name@.len() + 1);
            assert(last_nested_end(b@, cnt as int, 96, d) == last_nested_end(
                b@,
                0,
                96 + 40 * cnt,
                if have_any {
                    last_end as int
                } else {
                    d
                },
            ));
        }
    }
    if end64 != b.len() as u64 {
        proof {
            if exists|p2: ResPartsTest| part_parses(b@, p2) && parts_wf(p2) && crate::parse::props_depth(p2.properties@) < fuel {
                let p2 = choose|p2: ResPartsTest|
                    part_parses(b@, p2) && parts_wf(p2) && crate::parse::props_depth(
                        p2.properties@,
                    ) < fuel;
                crate::parse::lemma_string_at_unique(
                    b@,
                    name_pos as int,
                    part.part_name@,
                    p2.part_name@,
                );
                assert(false);
            }
        }
        return Err(BflytError::SizeMismatch);
    }
    proof {
        assert(clsum <= 3 * cnt * 0x1_0000_0000);
        assert(3 * cnt * 0x1_0000_0000 <= 3 * 0x8000000 * 0x1_0000_0000) by (nonlinear_arith)
            requires
                0 <= cnt <= 0x8000000,
        ;
        assert(part_parses(b@, part));
    }
    let nrem2: u64 = (nl as u64 + 1) % 4;
    let npad2: u64 = if nrem2 == 0 {
        0
    } else {
        4 - nrem2
    };
    let pl64: u64 = 88 + 40 * (cnt as u64) + (nl as u64 + 1) + npad2 + clsum;
    proof {
        lemma_enc_parts_len(part);
        assert(enc_parts(part).len() == pl64);
    }
    if pl64 > MAX_PAYLOAD as u64 {
        proof {
            if exists|p2: ResPartsTest| part_parses(b@, p2) && parts_wf(p2) && crate::parse::props_depth(p2.properties@) < fuel {
                let p2 = choose|p2: ResPartsTest|
                    part_parses(b@, p2) && parts_wf(p2) && crate::parse::props_depth(
                        p2.properties@,
                    ) < fuel;
                crate::laws::lemma_parts_deterministic(b@, p2, part);
                assert(false);
            }
        }
        return Err(BflytError::SizeMismatch);
    }
    proof {
        assert(parts_wf(part));
    }
    Ok((part, pl64 as usize))
}

/// Decodes the section whose span starts at `pos`: its tag, its declared
/// self-inclusive length, and its payload, dispatched by tag; an unknown
/// tag keeps its payload bytes verbatim.  Also returns the bytes consumed
/// (the declared length) and the canonical re-encoded section length.
///
/// `fuel` bounds how deep `prt1` sections may nest; a buffer of length `n`
/// cannot encode a chain deeper than `n`, so callers pass the buffer
/// length, and only a degenerate offset cycle can exhaust it.
#[verifier::rlimit(100)]
#[verifier::spinoff_prover]
pub fn decode_section_at(b: &Vec<u8>, pos: usize, fuel: usize) -> (r: Result<
    (BflytSection, usize, usize),
    BflytError,
>)
    requires
        pos <= b.len(),
    ensures
        match r {
            Ok((s, n, cl)) => {
                &&& pos + 8 <= b.len()
                &&& 8 <= n
                &&& pos + n <= b.len()
                &&& n == le32_at(b@, pos + 4) as int
                &&& section_parses(b@.subrange(pos as int, pos + n), s)
                &&& cl == enc_section(s).len()
                &&& 8 <= cl <= 0xFFFF_FFFF
            },
            Err(e) => true,
        },
        (exists|s2: BflytSection|
            crate::parse::section_at(b@, pos as int, s2) && crate::parse::sec_depth(s2)
                < fuel) ==> r is Ok,
        ({
            let tag = le32_at(b@, pos as int);
            let sz = le32_at(b@, pos + 4) as int;
            pos + 8 <= b@.len() && 8 <= sz && pos + sz <= b@.len() && (tag == TAG_PAS1 || tag
                == TAG_PAE1 || tag == TAG_GRS1 || tag == TAG_GRE1) && sz != 8
        }) ==> r == Result::<(BflytSection, usize, usize), BflytError>::Err(
            BflytError::SizeMismatch,
        ),
    decreases fuel, 2int,
{
    if b.len() - pos < 8 {
        proof {
            if exists|s2: BflytSection|
                crate::parse::section_at(b@, pos as int, s2) && crate::parse::sec_depth(s2)
                    < fuel {
                let s2 = choose|s2: BflytSection|
                    crate::parse::section_at(b@, pos as int, s2) && crate::parse::sec_depth(s2)
                        < fuel;
                assert(false);
            }
        }
        return Err(BflytError::TruncatedInput);
    }
    let sz32 = read_u32(b, pos + 4);
    let sz = sz32 as usize;
    if sz < 8 {
        proof {
            if exists|s2: BflytSection|
                crate::parse::section_at(b@, pos as int, s2) && crate::parse::sec_depth(s2)
                    < fuel {
                let s2 = choose|s2: BflytSection|
                    crate::parse::section_at(b@, pos as int, s2) && crate::parse::sec_depth(s2)
                        < fuel;
                assert(false);
            }
        }
        return Err(BflytError::SizeMismatch);
    }
    if sz > b.len() - pos {
        proof {
            if exists|s2: BflytSection|
                crate::parse::section_at(b@, pos as int, s2) && crate::parse::sec_depth(s2)
                    < fuel {
                let s2 = choose|s2: BflytSection|
                    crate::parse::section_at(b@, pos as int, s2) && crate::parse::sec_depth(s2)
                        < fuel;
                assert(false);
            }
        }
        return Err(BflytError::TruncatedInput);
    }
    let span = read_bytes(b, pos, sz);
    let tag = read_u32(&span, 0);
    proof {
        assert(le32_at(span@, 0) == le32_at(b@, pos as int)) by {
            assert(span@[0] == b@[pos as int]);
            assert(span@[1] == b@[pos + 1]);
            assert(span@[2] == b@[pos + 2]);
            assert(span@[3] == b@[pos + 3]);
        }
        assert(le32_at(span@, 4) == sz32) by {
            assert(span@[4] == b@[pos + 4]);
            assert(span@[5] == b@[pos + 5]);
            assert(span@[6] == b@[pos + 6]);
            assert(span@[7] == b@[pos + 7]);
        }
    }
    if tag == TAG_PAN1 {
        if sz != 84 {
            proof {
                if exists|s2: BflytSection|
                crate::parse::section_at(b@, pos as int, s2) && crate::parse::sec_depth(s2)
                    < fuel {
                    let s2 = choose|s2: BflytSection|
                    crate::parse::section_at(b@, pos as int, s2) && crate::parse::sec_depth(s2)
                        < fuel;
                assert(b@.subrange(pos as int, pos + sz as int) == span@);
                assert(section_parses(span@, s2));
                        assert(false);
                }
            }
            return Err(BflytError::SizeMismatch);
        }
        let pane = decode_pane(&span, 8);
        let s = BflytSection::Pane { pane };
        proof {
            crate::encoding::lemma_enc_pane_len(pane);
            assert(section_parses(span@, s));
        }
        Ok((s, sz, 84))
    } else if tag == TAG_TXL1 {
        match decode_texlist(&span) {
            Ok((t, pl)) => {
                let s = BflytSection::TextureList { texture_list: t };
                proof {
                    assert(section_parses(span@, s));
                }
                Ok((s, sz, pl + 8))
            },
            Err(e) => {
                proof {
                    if exists|s2: BflytSection|
                crate::parse::section_at(b@, pos as int, s2) && crate::parse::sec_depth(s2)
                    < fuel {
                        let s2 = choose|s2: BflytSection|
                    crate::parse::section_at(b@, pos as int, s2) && crate::parse::sec_depth(s2)
                        < fuel;
                        assert(b@.subrange(pos as int, pos + sz as int) == span@);
                        assert(section_parses(span@, s2));
                        match s2 {
                            BflytSection::TextureList { texture_list } => {
                                assert(texlist_parses(span@, texture_list) && texlist_wf(
                                    texture_list,
                                ));
                            },
                            _ => {},
                        }
                        assert(false);
                    }
                }
                Err(e)
            },
        }
    } else if tag == TAG_PIC1 {
        match decode_picture(&span) {
            Ok(p) => {
                let ghost n_quads = p.tex_coords@.len();
                let cl = span.len();
                let s = BflytSection::Picture { picture: p };
                proof {
                    crate::encoding::lemma_enc_picture_len(p);
                    assert(section_parses(span@, s));
                    assert(cl == enc_section(s).len());
                }
                Ok((s, sz, cl))
            },
            Err(e) => {
                proof {
                    if exists|s2: BflytSection|
                crate::parse::section_at(b@, pos as int, s2) && crate::parse::sec_depth(s2)
                    < fuel {
                        let s2 = choose|s2: BflytSection|
                    crate::parse::section_at(b@, pos as int, s2) && crate::parse::sec_depth(s2)
                        < fuel;
                        assert(b@.subrange(pos as int, pos + sz as int) == span@);
                        assert(section_parses(span@, s2));
                        match s2 {
                            BflytSection::Picture { picture } => {
                                assert(picture_parses(span@, picture) && picture_wf(picture));
                            },
                            _ => {},
                        }
                        assert(false);
                    }
                }
                Err(e)
            },
        }
    } else if tag == TAG_TXT1 {
        match decode_textbox(&span) {
            Ok((t, pl)) => {
                let s = BflytSection::TextBox { text_box: Box::new(t) };
                proof {
                    assert(section_parses(span@, s));
                }
                Ok((s, sz, pl + 8))
            },
            Err(e) => {
                proof {
                    if exists|s2: BflytSection|
                crate::parse::section_at(b@, pos as int, s2) && crate::parse::sec_depth(s2)
                    < fuel {
                        let s2 = choose|s2: BflytSection|
                    crate::parse::section_at(b@, pos as int, s2) && crate::parse::sec_depth(s2)
                        < fuel;
                        assert(b@.subrange(pos as int, pos + sz as int) == span@);
                        assert(section_parses(span@, s2));
                        match s2 {
                            BflytSection::TextBox { text_box } => {
                                assert(textbox_parses(span@, *text_box) && textbox_wf(*text_box));
                            },
                            _ => {},
                        }
                        assert(false);
                    }
                }
                Err(e)
            },
        }
    } else if tag == TAG_PRT1 {
        match decode_parts(&span, fuel) {
            Ok((part, pl)) => {
                let s = BflytSection::Part { part };
                proof {
                    assert(section_parses(span@, s));
                }
                Ok((s, sz, pl + 8))
            },
            Err(e) => {
                proof {
                    if exists|s2: BflytSection|
                crate::parse::section_at(b@, pos as int, s2) && crate::parse::sec_depth(s2)
                    < fuel {
                        let s2 = choose|s2: BflytSection|
                    crate::parse::section_at(b@, pos as int, s2) && crate::parse::sec_depth(s2)
                        < fuel;
                        assert(b@.subrange(pos as int, pos + sz as int) == span@);
                        assert(section_parses(span@, s2));
                        match s2 {
                            BflytSection::Part { part } => {
                                assert(part_parses(span@, part) && parts_wf(part));
                                assert(crate::parse::props_depth(part.properties@) < fuel);
                            },
                            _ => {},
                        }
                        assert(false);
                    }
                }
                Err(e)
            },
        }
    } else if tag == TAG_PAS1 || tag == TAG_PAE1 || tag == TAG_GRS1 || tag == TAG_GRE1 {
        if sz != 8 {
            proof {
                if exists|s2: BflytSection|
                crate::parse::section_at(b@, pos as int, s2) && crate::parse::sec_depth(s2)
                    < fuel {
                    let s2 = choose|s2: BflytSection|
                    crate::parse::section_at(b@, pos as int, s2) && crate::parse::sec_depth(s2)
                        < fuel;
                assert(b@.subrange(pos as int, pos + sz as int) == span@);
                assert(section_parses(span@, s2));
                        assert(false);
                }
            }
            return Err(BflytError::SizeMismatch);
        }
        let s = if tag == TAG_PAS1 {
            BflytSection::PaneStart
        } else if tag == TAG_PAE1 {
            BflytSection::PaneEnd
        } else if tag == TAG_GRS1 {
            BflytSection::GroupStart
        } else {
            BflytSection::GroupEnd
        };
        proof {
            assert(section_parses(span@, s));
        }
        Ok((s, sz, 8))
    } else {
        let data = read_bytes(&span, 8, sz - 8);
        let s = if tag == TAG_MAT1 {
            BflytSection::Material { data }
        } else if tag == TAG_WND1 {
            BflytSection::Window { data }
        } else if tag == TAG_GRP1 {
            BflytSection::Group { data }
        } else if tag == TAG_BND1 {
            BflytSection::Bounding { data }
        } else if tag == TAG_LYT1 {
            BflytSection::Layout { data }
        } else if tag == TAG_FNL1 {
            BflytSection::FontList { data }
        } else if tag == TAG_USD1 {
            BflytSection::UserDataList { data }
        } else {
            BflytSection::Unknown { tag, data }
        };
        proof {
            assert(section_parses(span@, s));
        }
        Ok((s, sz, sz))
    }
}

/// Decodes a whole layout file: the 20-byte header, then exactly the
/// declared number of sections, which must fill the buffer exactly; the
/// stored total file size must match the buffer length.
pub fn decode_bflyt(buf: &Vec<u8>) -> (r: Result<BflytFile, BflytError>)
    ensures
        match r {
            Ok(f) => file_parses(buf@, f),
            Err(e) => true,
        },
        buf@.len() < 4 ==> r == Result::<BflytFile, BflytError>::Err(BflytError::TruncatedInput),
        buf@.len() >= 4 && le32_at(buf@, 0) != MAGIC_FLYT ==> r == Result::<
            BflytFile,
            BflytError,
        >::Err(BflytError::BadMagic),
        buf@.len() >= 6 && le32_at(buf@, 0) == MAGIC_FLYT && le16_at(buf@, 4)
            != BYTE_ORDER_LITTLE ==> r == Result::<BflytFile, BflytError>::Err(
            BflytError::UnsupportedByteOrder,
        ),
        buf@.len() >= 4 && buf@.len() < 6 && le32_at(buf@, 0) == MAGIC_FLYT ==> r == Result::<
            BflytFile,
            BflytError,
        >::Err(BflytError::TruncatedInput),
        buf@.len() >= 6 && buf@.len() < 20 && le32_at(buf@, 0) == MAGIC_FLYT && le16_at(buf@, 4)
            == BYTE_ORDER_LITTLE ==> r == Result::<BflytFile, BflytError>::Err(
            BflytError::TruncatedInput,
        ),
        (exists|f2: BflytFile| file_parses(buf@, f2)) ==> r is Ok,
{
    if buf.len() < 4 {
        proof {
        if exists|f2: BflytFile| file_parses(buf@, f2) {
            let f2 = choose|f2: BflytFile| file_parses(buf@, f2);
            assert(false);
        }
    }
    return Err(BflytError::TruncatedInput);
    }
    if read_u32(buf, 0) != MAGIC_FLYT {
        proof {
        if exists|f2: BflytFile| file_parses(buf@, f2) {
            let f2 = choose|f2: BflytFile| file_parses(buf@, f2);
            assert(false);
        }
    }
    return Err(BflytError::BadMagic);
    }
    if buf.len() < 6 {
        proof {
        if exists|f2: BflytFile| file_parses(buf@, f2) {
            let f2 = choose|f2: BflytFile| file_parses(buf@, f2);
            assert(false);
        }
    }
    return Err(BflytError::TruncatedInput);
    }
    if read_u16(buf, 4) != BYTE_ORDER_LITTLE {
        proof {
        if exists|f2: BflytFile| file_parses(buf@, f2) {
            let f2 = choose|f2: BflytFile| file_parses(buf@, f2);
            assert(false);
        }
    }
    return Err(BflytError::UnsupportedByteOrder);
    }
    if buf.len() < 20 {
        proof {
        if exists|f2: BflytFile| file_parses(buf@, f2) {
            let f2 = choose|f2: BflytFile| file_parses(buf@, f2);
            assert(false);
        }
    }
    return Err(BflytError::TruncatedInput);
    }
    if buf.len() as u64 > 0xFFFF_FFFF {
        proof {
        if exists|f2: BflytFile| file_parses(buf@, f2) {
            let f2 = choose|f2: BflytFile| file_parses(buf@, f2);
            assert(false);
        }
    }
    return Err(BflytError::SizeMismatch);
    }
    let header_size = read_u16(buf, 6);
    let version = read_u32(buf, 8);
    let file_size = read_u32(buf, 12);
    if file_size as u64 != buf.len() as u64 {
        proof {
        if exists|f2: BflytFile| file_parses(buf@, f2) {
            let f2 = choose|f2: BflytFile| file_parses(buf@, f2);
            assert(false);
        }
    }
    return Err(BflytError::SizeMismatch);
    }
    let cnt = read_u16(buf, 16) as usize;
    let padding = read_u16(buf, 18);
    let mut sections: Vec<BflytSection> = Vec::new();
    let mut pos: usize = 20;
    let mut clsum: u64 = 20;
    let mut i: usize = 0;
    proof {
        assert(sections_parse(buf@, 20, Seq::<BflytSection>::empty()));
        assert(secs_end(buf@, 20, Seq::<BflytSection>::empty()) == 20);
        assert(crate::encoding::enc_sections(Seq::<BflytSection>::empty()).len() == 0);
    }
    proof {
        assert forall|f2: BflytFile| file_parses(buf@, f2) implies f2.sections@.subrange(
            0,
            cnt as int,
        ) == f2.sections@ by {
            assert(f2.sections@.subrange(0, f2.sections@.len() as int) =~= f2.sections@);
        }
    }
    while i < cnt
        invariant
            20 <= pos <= buf.len(),
            buf.len() <= 0xFFFF_FFFF,
            le32_at(buf@, 0) == MAGIC_FLYT,
            le16_at(buf@, 4) == BYTE_ORDER_LITTLE,
            i <= cnt,
            sections@.len() == i,
            cnt <= 0xffff,
            cnt == le16_at(buf@, 16) as int,
            sections_parse(buf@, 20, sections@),
            secs_end(buf@, 20, sections@) == pos,
            crate::encoding::secs_wf(sections@),
            clsum == 20 + crate::encoding::enc_sections(sections@).len(),
            clsum <= 20 + i * 0x1_0000_0000,
            forall|f2: BflytFile| file_parses(buf@, f2) ==> {
                &&& f2.sections@.len() == cnt
                &&& sections_parse(buf@, pos as int, #[trigger] f2.sections@.subrange(i as int, cnt as int))
                &&& secs_end(buf@, pos as int, f2.sections@.subrange(i as int, cnt as int))
                    == buf@.len()
            },
        decreases cnt - i,
    {
        let (s, n, cl) = match decode_section_at(buf, pos, buf.len()) {
            Ok(x) => x,
            Err(e) => {
                proof {
                    if exists|f2: BflytFile| file_parses(buf@, f2) {
                        let f2 = choose|f2: BflytFile| file_parses(buf@, f2);
                        let suffix = f2.sections@.subrange(i as int, cnt as int);
                        let szf = le32_at(buf@, pos + 4) as int;
                        assert(sections_parse(buf@, pos as int, suffix));
                        assert(suffix.len() > 0);
                        assert(section_parses(buf@.subrange(pos as int, pos + szf), suffix[0]));
                        crate::parse::lemma_parse_depth(
                            buf@.subrange(pos as int, pos + szf),
                            suffix[0],
                        );
                        assert(crate::parse::section_at(buf@, pos as int, suffix[0]));
                        assert(crate::parse::sec_depth(suffix[0]) < buf@.len());
                        assert(false);
                    }
                }
                return Err(e);
            },
        };
        proof {
            lemma_sections_parse_snoc(buf@, 20, sections@, s);
            crate::encoding::lemma_enc_sections_snoc(sections@, s);
            assert(20 + i * 0x1_0000_0000 + 0x1_0000_0000 == 20 + (i + 1) * 0x1_0000_0000)
                by (nonlinear_arith);
            assert((i + 1) * 0x1_0000_0000 <= 0xffff * 0x1_0000_0000) by (nonlinear_arith)
                requires
                    0 <= i + 1 <= 0xffff,
            ;
        }
        let ghost prev = sections@;
        let ghost pos0 = pos as int;
        let ghost i0 = i as int;
        sections.push(s);
        proof {
            assert(sections@ =~= prev + seq![s]);
        }
        pos = pos + n;
        clsum = clsum + cl as u64;
        i = i + 1;
        proof {
            assert forall|f2: BflytFile| file_parses(buf@, f2) implies {
                &&& f2.sections@.len() == cnt
                &&& sections_parse(buf@, pos as int, #[trigger] f2.sections@.subrange(i as int, cnt as int))
                &&& secs_end(buf@, pos as int, f2.sections@.subrange(i as int, cnt as int))
                    == buf@.len()
            } by {
                let suffix = f2.sections@.subrange(i0, cnt as int);
                assert(sections_parse(buf@, pos0, suffix));
                assert(secs_end(buf@, pos0, suffix) == buf@.len());
                assert(suffix.len() > 0);
                assert(suffix.subrange(1, suffix.len() as int) =~= f2.sections@.subrange(
                    i as int,
                    cnt as int,
                ));
            }
        }
    }
    if pos != buf.len() {
        proof {
            if exists|f2: BflytFile| file_parses(buf@, f2) {
                let f2 = choose|f2: BflytFile| file_parses(buf@, f2);
                let suffix = f2.sections@.subrange(i as int, cnt as int);
                assert(suffix =~= Seq::<BflytSection>::empty());
                assert(secs_end(buf@, pos as int, suffix) == pos);
                assert(false);
            }
        }
        return Err(BflytError::SizeMismatch);
    }
    if clsum > 0xFFFF_FFFF {
        proof {
            if exists|f2: BflytFile| file_parses(buf@, f2) {
                let f2 = choose|f2: BflytFile| file_parses(buf@, f2);
                crate::laws::lemma_sections_deterministic(buf@, 20, f2.sections@, sections@);
                assert(false);
            }
        }
        return Err(BflytError::SizeMismatch);
    }
    let f = BflytFile { header: BflytHeader { header_size, version, padding }, sections };
    proof {
        assert(crate::encoding::file_wf(f));
        assert(file_parses(buf@, f));
    }
    Ok(f)
}
} // verus!
