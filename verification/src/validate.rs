//! Executable well-formedness checks.  A document built by hand (or read
//! from the interchange form) is not known to be encodable; these functions
//! decide well-formedness exactly, so a caller can establish `encode_bflyt`'s
//! precondition before asking for bytes.

use vstd::prelude::*;

use crate::bytes::nul_free;
use crate::encoding::{
    enc_nested, enc_opt_section, enc_parts, enc_section, enc_sections, enc_str_block, enc_texlist,
    enc_textbox, file_wf, lemma_enc_nested_snoc, lemma_enc_pane_len, lemma_enc_parts_len,
    lemma_enc_picture_len, lemma_enc_sections_snoc, lemma_enc_str_block_snoc,
    lemma_enc_textbox_len, lemma_props_wf_snoc, lemma_str_block_elem_le,
    lemma_texlist_offsets_len, opt_section_wf, pane_wf, parts_wf, props_wf, sec_wf, texlist_wf,
    textbox_wf, views_of, MAX_PAYLOAD,
};
use crate::model::{
    BflytFile, BflytSection, ResPaneTest, ResPartsProperty, ResPartsTest, ResTextBoxTest,
    TextureListInner, TAG_BND1, TAG_FNL1, TAG_GRE1, TAG_GRP1, TAG_GRS1, TAG_LYT1, TAG_MAT1,
    TAG_PAE1, TAG_PAN1, TAG_PAS1, TAG_PIC1, TAG_PRT1, TAG_TXL1, TAG_TXT1, TAG_USD1, TAG_WND1,
};

verus! {

/// True when no byte of `v` is NUL.
pub fn is_nul_free(v: &Vec<u8>) -> (r: bool)
    ensures
        r == nul_free(v@),
{
    let mut i: usize = 0;
    while i < v.len()
        invariant
            i <= v.len(),
            forall|k: int| 0 <= k < i ==> v@[k] != 0,
        decreases v.len() - i,
    {
        if v[i] == 0 {
            return false;
        }
        i = i + 1;
    }
    true
}

pub fn check_pane(p: &ResPaneTest) -> (r: bool)
    ensures
        r == pane_wf(*p),
{
    p.name.len() == 24 && p.user_data.len() == 8
}

/// Decides `texlist_wf` and computes the canonical payload length.
fn check_texlist(t: &TextureListInner) -> (r: Option<usize>)
    ensures
        match r {
            Some(l) => texlist_wf(*t) && l == enc_texlist(*t).len(),
            None => !texlist_wf(*t),
        },
{
    let ghost names = views_of(t.texture_names@);
    let n = t.texture_names.len();
    proof {
        lemma_texlist_offsets_len(names, 0);
    }
    if n as u64 > 0x3FFF_FFFF {
        proof {
            assert(enc_texlist(*t).len() >= 4 * n);
        }
        return None;
    }
    let mut strs: u64 = 0;
    let mut j: usize = 0;
    proof {
        assert(names.subrange(0, 0) =~= Seq::<Seq<u8>>::empty());
    }
    while j < n
        invariant
            names == views_of(t.texture_names@),
            n == t.texture_names@.len(),
            n <= 0x3FFF_FFFF,
            j <= n,
            forall|k: int| 0 <= k < j ==> nul_free(#[trigger] t.texture_names@[k]@),
            strs == enc_str_block(names.subrange(0, j as int)).len(),
            strs <= j * 0x1_0000_0001,
        decreases n - j,
    {
        if !is_nul_free(&t.texture_names[j]) {
            return None;
        }
        if t.texture_names[j].len() as u64 > 0xFFFF_FFFF {
            proof {
                lemma_str_block_elem_le(names, j as int);
                assert(enc_texlist(*t).len() >= enc_str_block(names).len());
            }
            return None;
        }
        proof {
            assert(names.subrange(0, j + 1) =~= names.subrange(0, j as int) + seq![names[j as int]]);
            lemma_enc_str_block_snoc(names.subrange(0, j as int), names[j as int]);
            assert(j * 0x1_0000_0001 + 0x1_0000_0001 == (j + 1) * 0x1_0000_0001)
                by (nonlinear_arith);
            assert((j + 1) * 0x1_0000_0001 <= 0x3FFF_FFFF * 0x1_0000_0001) by (nonlinear_arith)
                requires
                    0 <= j + 1 <= 0x3FFF_FFFF,
            ;
        }
        strs = strs + (t.texture_names[j].len() as u64 + 1);
        j = j + 1;
    }
    proof {
        assert(names.subrange(0, n as int) =~= names);
        assert(n * 0x1_0000_0001 <= 0x3FFF_FFFF * 0x1_0000_0001) by (nonlinear_arith)
            requires
                0 <= n <= 0x3FFF_FFFF,
        ;
    }
    let body64: u64 = 4 + 4 * (n as u64) + strs;
    let rem: u64 = body64 % 4;
    let pad: u64 = if rem == 0 {
        0
    } else {
        4 - rem
    };
    if body64 + pad > MAX_PAYLOAD as u64 {
        return None;
    }
    proof {
        assert(enc_texlist(*t).len() == body64 + pad);
    }
    Some((body64 + pad) as usize)
}

/// Decides `textbox_wf` and computes the canonical payload length.
fn check_textbox(t: &ResTextBoxTest) -> (r: Option<usize>)
    ensures
        match r {
            Some(l) => textbox_wf(*t) && l == enc_textbox(*t).len(),
            None => !textbox_wf(*t),
        },
{
    if !check_pane(&t.pane) {
        return None;
    }
    if t.text_cols.len() != 2 || t.shadow_cols.len() != 2 {
        return None;
    }
    if t.text.len() > 0xffff {
        return None;
    }
    let lwb: u64 = match &t.line_widths {
        Some(lw) => {
            if lw.line_offset.len() != lw.line_width.len() || lw.line_offset.len() > 255 {
                return None;
            }
            1 + 8 * (lw.line_offset.len() as u64)
        },
        None => 0,
    };
    let pctb: u64 = match (&t.per_character_transform, &t.per_character_transform_animation_info) {
        (Some(_), Some(a)) => {
            if a.padding.len() != 3 {
                return None;
            }
            20
        },
        (None, None) => 0,
        _ => {
            return None;
        },
    };
    proof {
        lemma_enc_textbox_len(*t);
    }
    let idb: u64 = match &t.text_id {
        Some(id) => {
            if !is_nul_free(id) {
                return None;
            }
            if id.len() as u64 > 0xFFFF_FFFF {
                return None;
            }
            id.len() as u64 + 1
        },
        None => 0,
    };
    let body64: u64 = 160 + t.text.len() as u64 + idb + lwb + pctb;
    let rem: u64 = body64 % 4;
    let pad: u64 = if rem == 0 {
        0
    } else {
        4 - rem
    };
    if body64 + pad > MAX_PAYLOAD as u64 {
        return None;
    }
    proof {
        assert(enc_textbox(*t).len() == body64 + pad);
        assert(textbox_wf(*t));
    }
    Some((body64 + pad) as usize)
}

/// Decides `parts_wf` and computes the canonical payload length; nested
/// sections are checked recursively.
#[verifier::rlimit(100)]
#[verifier::spinoff_prover]
fn check_parts(part: &ResPartsTest) -> (r: Option<usize>)
    ensures
        match r {
            Some(l) => parts_wf(*part) && l == enc_parts(*part).len(),
            None => !parts_wf(*part),
        },
    decreases *part, 12int,
{
    if !check_pane(&part.pane) {
        return None;
    }
    if !is_nul_free(&part.part_name) {
        return None;
    }
    let n = part.properties.len();
    if n as u64 > 0x0800_0000 {
        proof {
            if parts_wf(*part) {
                lemma_enc_parts_len(*part);
                crate::encoding::lemma_enc_prop_heads_len(
                    part.properties@,
                    crate::encoding::parts_nested_start(
                        part.properties@.len() as int,
                        part.part_name@.len() as int,
                    ),
                );
            }
        }
        return None;
    }
    let mut clsum: u64 = 0;
    let mut j: usize = 0;
    proof {
        assert(part.properties@.subrange(0, 0) =~= Seq::<ResPartsProperty>::empty());
        assert(props_wf(Seq::<ResPartsProperty>::empty()));
        assert(enc_nested(Seq::<ResPartsProperty>::empty()).len() == 0);
    }
    while j < n
        invariant
            n == part.properties@.len(),
            n <= 0x0800_0000,
            j <= n,
            props_wf(part.properties@.subrange(0, j as int)),
            clsum == enc_nested(part.properties@.subrange(0, j as int)).len(),
            clsum <= 3 * j * 0x1_0000_0000,
            forall|k: int|
                0 <= k < part.properties@.len() ==> decreases_to!(
                    *part => #[trigger] part.properties@[k]
                ),
        decreases n - j,
    {
        let p = &part.properties[j];
        if p.name.len() != 24 {
            proof {
                lemma_props_wf_break(part.properties@, j as int);
            }
            return None;
        }
        let c1 = match check_opt_section(&p.property) {
            Some(c) => c,
            None => {
                proof {
                    lemma_props_wf_break(part.properties@, j as int);
                }
                return None;
            },
        };
        let c2 = match check_opt_section(&p.ext_user_data) {
            Some(c) => c,
            None => {
                proof {
                    lemma_props_wf_break(part.properties@, j as int);
                }
                return None;
            },
        };
        let c3 = match check_opt_section(&p.pane_basic_info) {
            Some(c) => c,
            None => {
                proof {
                    lemma_props_wf_break(part.properties@, j as int);
                }
                return None;
            },
        };
        proof {
            lemma_props_wf_snoc(part.properties@.subrange(0, j as int), *p);
            lemma_enc_nested_snoc(part.properties@.subrange(0, j as int), *p);
            assert(part.properties@.subrange(0, j + 1) =~= part.properties@.subrange(0, j as int)
                + seq![part.properties@[j as int]]);
            assert(3 * j * 0x1_0000_0000 + 3 * 0x1_0000_0000 == 3 * (j + 1) * 0x1_0000_0000)
                by (nonlinear_arith);
            assert(3 * (j + 1) * 0x1_0000_0000 <= 3 * 0x0800_0000 * 0x1_0000_0000)
                by (nonlinear_arith)
                requires
                    0 <= j + 1 <= 0x0800_0000,
            ;
        }
        clsum = clsum + (c1 as u64) + (c2 as u64) + (c3 as u64);
        j = j + 1;
    }
    proof {
        assert(part.properties@.subrange(0, n as int) =~= part.properties@);
        lemma_enc_parts_len(*part);
    }
    let nl = part.part_name.len();
    if nl as u64 > 0xFFFF_FFFF {
        return None;
    }
    let nrem: u64 = (nl as u64 + 1) % 4;
    let npad: u64 = if nrem == 0 {
        0
    } else {
        4 - nrem
    };
    let pl64: u64 = 88 + 40 * (n as u64) + (nl as u64 + 1) + npad + clsum;
    if pl64 > MAX_PAYLOAD as u64 {
        return None;
    }
    proof {
        assert(enc_parts(*part).len() == pl64);
        assert(parts_wf(*part));
    }
    Some(pl64 as usize)
}

/// Decides `sec_wf` and computes the canonical encoded section length.
#[verifier::rlimit(100)]
#[verifier::spinoff_prover]
pub fn check_section(s: &BflytSection) -> (r: Option<usize>)
    ensures
        match r {
            Some(l) => sec_wf(*s) && l == enc_section(*s).len() && 8 <= l <= 0xFFFF_FFFF,
            None => !sec_wf(*s),
        },
    decreases *s, 13int,
{
    proof {
        if sec_wf(*s) {
            crate::encoding::lemma_sec_wf_payload_bound(*s);
        }
    }
    match s {
        BflytSection::Pane { pane } => {
            if check_pane(pane) {
                proof {
                    lemma_enc_pane_len(*pane);
                }
                Some(84)
            } else {
                None
            }
        },
        BflytSection::TextureList { texture_list } => {
            match check_texlist(texture_list) {
                Some(l) => Some(l + 8),
                None => None,
            }
        },
        BflytSection::Picture { picture } => {
            if check_pane(&picture.pane) && picture.vtx_cols.len() == 4 && picture.tex_coords.len()
                <= 255 {
                proof {
                    lemma_enc_picture_len(*picture);
                }
                Some(104 + 32 * picture.tex_coords.len())
            } else {
                None
            }
        },
        BflytSection::TextBox { text_box } => {
            match check_textbox(&**text_box) {
                Some(l) => Some(l + 8),
                None => None,
            }
        },
        BflytSection::Part { part } => {
            match check_parts(part) {
                Some(l) => Some(l + 8),
                None => None,
            }
        },
        BflytSection::Material { data } => check_raw(data),
        BflytSection::Window { data } => check_raw(data),
        BflytSection::PaneStart => Some(8),
        BflytSection::PaneEnd => Some(8),
        BflytSection::Group { data } => check_raw(data),
        BflytSection::GroupStart => Some(8),
        BflytSection::GroupEnd => Some(8),
        BflytSection::Bounding { data } => check_raw(data),
        BflytSection::Layout { data } => check_raw(data),
        BflytSection::FontList { data } => check_raw(data),
        BflytSection::UserDataList { data } => check_raw(data),
        BflytSection::Unknown { tag, data } => {
            if *tag == TAG_PAN1 || *tag == TAG_TXL1 || *tag == TAG_PIC1 || *tag == TAG_TXT1 || *tag
                == TAG_PRT1 || *tag == TAG_MAT1 || *tag == TAG_WND1 || *tag == TAG_PAS1 || *tag
                == TAG_PAE1 || *tag == TAG_GRP1 || *tag == TAG_GRS1 || *tag == TAG_GRE1 || *tag
                == TAG_BND1 || *tag == TAG_LYT1 || *tag == TAG_FNL1 || *tag == TAG_USD1 {
                None
            } else {
                check_raw(data)
            }
        },
    }
}

fn check_raw(data: &Vec<u8>) -> (r: Option<usize>)
    ensures
        match r {
            Some(l) => data@.len() <= MAX_PAYLOAD && l == 8 + data@.len(),
            None => !(data@.len() <= MAX_PAYLOAD),
        },
{
    if data.len() as u64 <= MAX_PAYLOAD as u64 {
        Some(8 + data.len())
    } else {
        None
    }
}

/// Decides well-formedness of one optional nested section, with its
/// canonical encoded length.
fn check_opt_section(o: &Option<Box<BflytSection>>) -> (r: Option<usize>)
    ensures
        match r {
            Some(l) => opt_section_wf(*o) && l == enc_opt_section(*o).len() && l <= 0xFFFF_FFFF,
            None => !opt_section_wf(*o),
        },
    decreases *o, 14int,
{
    match o {
        Some(b) => check_section(&**b),
        None => Some(0),
    }
}

/// A property list with a malformed entry is not well formed.
proof fn lemma_props_wf_break(ps: Seq<ResPartsProperty>, j: int)
    requires
        0 <= j < ps.len(),
        !(ps[j].name@.len() == 24 && opt_section_wf(ps[j].property) && opt_section_wf(
            ps[j].ext_user_data,
        ) && opt_section_wf(ps[j].pane_basic_info)),
    ensures
        !props_wf(ps),
    decreases j,
{
    if props_wf(ps) {
        crate::encoding::lemma_props_wf_index(ps, j);
    }
}

/// Decides `file_wf`: every section must be well formed, the section count
/// must fit its 16-bit field, and the whole encoding must fit the 32-bit
/// file-size field.
pub fn check_file(f: &BflytFile) -> (r: bool)
    ensures
        r == file_wf(*f),
{
    let n = f.sections.len();
    if n > 0xffff {
        return false;
    }
    let mut total: u64 = 20;
    let mut i: usize = 0;
    proof {
        assert(f.sections@.subrange(0, 0) =~= Seq::<BflytSection>::empty());
        assert(enc_sections(Seq::<BflytSection>::empty()).len() == 0);
    }
    while i < n
        invariant
            n == f.sections@.len(),
            n <= 0xffff,
            i <= n,
            forall|k: int| 0 <= k < i ==> sec_wf(#[trigger] f.sections@[k]),
            total == 20 + enc_sections(f.sections@.subrange(0, i as int)).len(),
            total <= 20 + i * 0x1_0000_0000,
        decreases n - i,
    {
        let cl = match check_section(&f.sections[i]) {
            Some(c) => c,
            None => {
                return false;
            },
        };
        proof {
            lemma_enc_sections_snoc(f.sections@.subrange(0, i as int), f.sections@[i as int]);
            assert(f.sections@.subrange(0, i + 1) =~= f.sections@.subrange(0, i as int)
                + seq![f.sections@[i as int]]);
            assert(20 + i * 0x1_0000_0000 + 0x1_0000_0000 == 20 + (i + 1) * 0x1_0000_0000)
                by (nonlinear_arith);
            assert((i + 1) * 0x1_0000_0000 <= 0xffff * 0x1_0000_0000) by (nonlinear_arith)
                requires
                    0 <= i + 1 <= 0xffff,
            ;
        }
        total = total + cl as u64;
        i = i + 1;
    }
    proof {
        assert(f.sections@.subrange(0, n as int) =~= f.sections@);
    }
    total <= 0xFFFF_FFFF
}

} // verus!
