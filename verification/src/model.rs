//! The typed document model: a layout file is a header plus a flat, ordered
//! list of sections.  Fields that the binary format derives from others
//! (section lengths, element counts, relative offsets, the file size) are not
//! stored: the encoder recomputes them, so a decoded document carries only
//! the information that survives a round trip.
//!
//! Fields that hold IEEE-754 single-precision values in the file (positions,
//! rotations, scales, spacings) are kept as their 32-bit bit patterns: the
//! codec never does arithmetic on them, and bit patterns round-trip exactly.

use vstd::prelude::*;

verus! {

/// Section tags, as the little-endian 32-bit value of their four ASCII bytes.
pub const TAG_PAN1: u32 = 0x316E6170;

pub const TAG_TXL1: u32 = 0x316C7874;

pub const TAG_PIC1: u32 = 0x31636970;

pub const TAG_TXT1: u32 = 0x31747874;

pub const TAG_PRT1: u32 = 0x31747270;

pub const TAG_MAT1: u32 = 0x3174616D;

pub const TAG_WND1: u32 = 0x31646E77;

pub const TAG_PAS1: u32 = 0x31736170;

pub const TAG_PAE1: u32 = 0x31656170;

pub const TAG_GRP1: u32 = 0x31707267;

pub const TAG_GRS1: u32 = 0x31737267;

pub const TAG_GRE1: u32 = 0x31657267;

pub const TAG_BND1: u32 = 0x31646E62;

pub const TAG_LYT1: u32 = 0x3174796C;

pub const TAG_FNL1: u32 = 0x316C6E66;

pub const TAG_USD1: u32 = 0x31647375;

/// The file magic `FLYT`, as a little-endian 32-bit value.
pub const MAGIC_FLYT: u32 = 0x54594C46;

/// The little-endian byte-order sentinel read from the header.
pub const BYTE_ORDER_LITTLE: u16 = 0xFEFF;

/// True when `tag` is one of the sixteen known section tags.
pub open spec fn known_tag(tag: u32) -> bool {
    ||| tag == TAG_PAN1
    ||| tag == TAG_TXL1
    ||| tag == TAG_PIC1
    ||| tag == TAG_TXT1
    ||| tag == TAG_PRT1
    ||| tag == TAG_MAT1
    ||| tag == TAG_WND1
    ||| tag == TAG_PAS1
    ||| tag == TAG_PAE1
    ||| tag == TAG_GRP1
    ||| tag == TAG_GRS1
    ||| tag == TAG_GRE1
    ||| tag == TAG_BND1
    ||| tag == TAG_LYT1
    ||| tag == TAG_FNL1
    ||| tag == TAG_USD1
}

/// File header.  The magic, the byte-order sentinel, the total file size and
/// the section count are not stored: the first two are fixed by the format
/// and the last two are recomputed when the document is encoded.
#[derive(Clone, Copy, Debug, PartialEq, Eq, Structural)]
pub struct BflytHeader {
    pub header_size: u16,
    pub version: u32,
    pub padding: u16,
}

/// An RGBA color, one byte per channel.
#[derive(Clone, Copy, Debug, PartialEq, Eq, Structural)]
pub struct ResColorTest {
    pub r: u8,
    pub g: u8,
    pub b: u8,
    pub a: u8,
}

/// A two-component vector of 32-bit float bit patterns.
#[derive(Clone, Copy, Debug, PartialEq, Eq, Structural)]
pub struct ResVec2Test {
    pub x: u32,
    pub y: u32,
}

/// A three-component vector of 32-bit float bit patterns.
#[derive(Clone, Copy, Debug, PartialEq, Eq, Structural)]
pub struct ResVec3Test {
    pub x: u32,
    pub y: u32,
    pub z: u32,
}

/// The 76-byte geometry and identity block shared by `pan1`, `pic1`, `txt1`
/// and `prt1` payloads.  `name` is the raw 24-byte NUL-padded name buffer;
/// `user_data` is the raw 8-byte user-data slot.
#[derive(Clone, Debug)]
pub struct ResPaneTest {
    pub flag: u8,
    pub base_position: u8,
    pub alpha: u8,
    pub flag_ex: u8,
    pub name: Vec<u8>,
    pub user_data: Vec<u8>,
    pub pos: ResVec3Test,
    pub rot_x: u32,
    pub rot_y: u32,
    pub rot_z: u32,
    pub scale_x: u32,
    pub scale_y: u32,
    pub size_x: u32,
    pub size_y: u32,
}

/// `txl1` payload: the texture name strings.  The count and the offset
/// table are derived from the names when the section is encoded.
#[derive(Clone, Debug)]
pub struct TextureListInner {
    pub texture_names: Vec<Vec<u8>>,
}

/// One quad of texture coordinates: top-left, top-right, bottom-left,
/// bottom-right.
#[derive(Clone, Copy, Debug, PartialEq, Eq, Structural)]
pub struct ResTexCoordQuad {
    pub tl: ResVec2Test,
    pub tr: ResVec2Test,
    pub bl: ResVec2Test,
    pub br: ResVec2Test,
}

/// `pic1` payload.
#[derive(Clone, Debug)]
pub struct ResPictureTest {
    pub pane: ResPaneTest,
    pub vtx_cols: Vec<ResColorTest>,
    pub material_idx: u16,
    pub flags: u8,
    pub tex_coords: Vec<ResTexCoordQuad>,
}

/// Animation-info record attached to a per-character transform.
#[derive(Clone, Debug)]
pub struct ResAnimationInfo {
    pub kind: u32,
    pub count: u8,
    pub padding: Vec<u8>,
}

/// Per-character transform record of a `txt1` payload.
#[derive(Clone, Copy, Debug, PartialEq, Eq, Structural)]
pub struct ResPerCharacterTransform {
    pub eval_time_offset: u32,
    pub eval_time_width: u32,
    pub loop_type: u8,
    pub origin_v: u8,
    pub has_animation_info: u8,
    pub padding: u8,
}

/// The per-line width table of a `txt1` payload: parallel arrays of line
/// offsets and line widths (float bit patterns).
#[derive(Clone, Debug)]
pub struct ResLineWidths {
    pub line_offset: Vec<u32>,
    pub line_width: Vec<u32>,
}

/// `txt1` payload.  The three trailing blocks are conditional: an absent
/// block decodes to `None` and encodes as a zero offset, never as an empty
/// present block.
#[derive(Clone, Debug)]
pub struct ResTextBoxTest {
    pub pane: ResPaneTest,
    pub text_str_bytes: u16,
    pub material_idx: u16,
    pub font_idx: u16,
    pub text_position: u8,
    pub text_alignment: u8,
    pub text_box_flag: u16,
    pub italic_ratio: u32,
    pub text_cols: Vec<ResColorTest>,
    pub font_size: ResVec2Test,
    pub char_space: u32,
    pub line_space: u32,
    pub shadow_offset: ResVec2Test,
    pub shadow_scale: ResVec2Test,
    pub shadow_cols: Vec<ResColorTest>,
    pub shadow_italic_ratio: u32,
    pub text: Vec<u8>,
    pub text_id: Option<Vec<u8>>,
    pub line_widths: Option<ResLineWidths>,
    pub per_character_transform: Option<ResPerCharacterTransform>,
    pub per_character_transform_animation_info: Option<ResAnimationInfo>,
}

/// One property record of a `prt1` payload.  Each of the three optional
/// slots holds the section fetched by following the corresponding stored
/// offset; an absent slot encodes as a zero offset.
pub struct ResPartsProperty {
    pub name: Vec<u8>,
    pub usage_flag: u8,
    pub basic_usage_flag: u8,
    pub material_usage_flag: u8,
    pub system_ext_user_data_override_flag: u8,
    pub property: Option<Box<BflytSection>>,
    pub ext_user_data: Option<Box<BflytSection>>,
    pub pane_basic_info: Option<Box<BflytSection>>,
}

/// `prt1` payload.  The nested sections make the section graph recursive:
/// every offset is resolved once at decode time into an owned child.
pub struct ResPartsTest {
    pub pane: ResPaneTest,
    pub magnify: ResVec2Test,
    pub properties: Vec<ResPartsProperty>,
    pub part_name: Vec<u8>,
}

/// A decoded section.  Sections with a known tag carry their typed payload;
/// the scope markers carry none; a section with an unknown tag keeps its tag
/// and raw payload bytes verbatim, so it round-trips losslessly.
pub enum BflytSection {
    Pane { pane: ResPaneTest },
    TextureList { texture_list: TextureListInner },
    Picture { picture: ResPictureTest },
    TextBox { text_box: Box<ResTextBoxTest> },
    Part { part: ResPartsTest },
    Material { data: Vec<u8> },
    Window { data: Vec<u8> },
    PaneStart,
    PaneEnd,
    Group { data: Vec<u8> },
    GroupStart,
    GroupEnd,
    Bounding { data: Vec<u8> },
    Layout { data: Vec<u8> },
    FontList { data: Vec<u8> },
    UserDataList { data: Vec<u8> },
    Unknown { tag: u32, data: Vec<u8> },
}

/// A decoded layout file: the header and the flat section stream, in file
/// order.  The pane tree is rebuilt from this stream separately.
pub struct BflytFile {
    pub header: BflytHeader,
    pub sections: Vec<BflytSection>,
}

/// The prefix of `bytes` up to (not including) its first NUL byte, or all of
/// `bytes` when no NUL is present.
pub open spec fn nul_prefix(s: Seq<u8>) -> Seq<u8>
    decreases s.len(),
{
    if s.len() == 0 {
        s
    } else if s[0] == 0 {
        Seq::empty()
    } else {
        seq![s[0]] + nul_prefix(s.subrange(1, s.len() as int))
    }
}

/// Copies the bytes of `bytes` up to its first NUL: the readable text of a
/// fixed-width NUL-padded name buffer.
pub fn name_bytes(bytes: &Vec<u8>) -> (r: Vec<u8>)
    ensures
        r@ == nul_prefix(bytes@),
{
    let mut r: Vec<u8> = Vec::new();
    let mut i: usize = 0;
    while i < bytes.len()
        invariant
            i <= bytes.len(),
            r@ == nul_prefix(bytes@.subrange(0, i as int)),
            crate::bytes::nul_free(bytes@.subrange(0, i as int)),
        decreases bytes.len() - i,
    {
        if bytes[i] == 0 {
            proof {
                lemma_nul_prefix_stops(bytes@, i as int);
                lemma_nul_prefix_of_nul_free(bytes@.subrange(0, i as int));
            }
            return r;
        }
        r.push(bytes[i]);
        proof {
            lemma_nul_prefix_grows(bytes@, i as int);
        }
        i = i + 1;
    }
    proof {
        assert(bytes@.subrange(0, bytes@.len() as int) =~= bytes@);
    }
    r
}

/// The NUL prefix of a NUL-free sequence is the sequence itself.
proof fn lemma_nul_prefix_of_nul_free(s: Seq<u8>)
    requires
        crate::bytes::nul_free(s),
    ensures
        nul_prefix(s) == s,
    decreases s.len(),
{
    if s.len() == 0 {
    } else {
        let t = s.subrange(1, s.len() as int);
        assert(crate::bytes::nul_free(t)) by {
            assert(forall|k: int| 0 <= k < t.len() ==> #[trigger] t[k] == s[k + 1]);
        }
        lemma_nul_prefix_of_nul_free(t);
        assert(nul_prefix(s) =~= s);
    }
}

/// When the first `i` bytes are NUL-free and byte `i` is NUL, the NUL prefix
/// of the whole sequence is those first `i` bytes.
proof fn lemma_nul_prefix_stops(s: Seq<u8>, i: int)
    requires
        0 <= i < s.len(),
        s[i] == 0,
        crate::bytes::nul_free(s.subrange(0, i)),
    ensures
        nul_prefix(s) == s.subrange(0, i),
    decreases i,
{
    if i == 0 {
        assert(nul_prefix(s) =~= s.subrange(0, 0));
    } else {
        let t = s.subrange(1, s.len() as int);
        assert(s.subrange(0, i)[0] == s[0]);
        assert(s[0] != 0);
        assert(t.subrange(0, i - 1) =~= s.subrange(0, i).subrange(1, i));
        assert(crate::bytes::nul_free(t.subrange(0, i - 1))) by {
            assert(forall|k: int|
                0 <= k < i - 1 ==> #[trigger] t.subrange(0, i - 1)[k] == s.subrange(0, i)[k + 1]);
        }
        lemma_nul_prefix_stops(t, i - 1);
        assert(nul_prefix(s) =~= s.subrange(0, i));
    }
}

/// When the first `i + 1` bytes are NUL-free, the NUL prefix of the first
/// `i + 1` bytes extends that of the first `i` bytes by byte `i`.
proof fn lemma_nul_prefix_grows(s: Seq<u8>, i: int)
    requires
        0 <= i < s.len(),
        crate::bytes::nul_free(s.subrange(0, i + 1)),
    ensures
        nul_prefix(s.subrange(0, i + 1)) == nul_prefix(s.subrange(0, i)) + seq![s[i]],
    decreases i,
{
    let a = s.subrange(0, i + 1);
    let b = s.subrange(0, i);
    if i == 0 {
        assert(a.len() == 1);
        assert(a[0] == s[0] && s[0] != 0);
        assert(a.subrange(1, 1) =~= Seq::<u8>::empty());
        assert(nul_prefix(a.subrange(1, 1)) =~= Seq::<u8>::empty());
        assert(nul_prefix(a) == seq![a[0]] + nul_prefix(a.subrange(1, 1)));
        assert(nul_prefix(a) =~= nul_prefix(b) + seq![s[0]]);
    } else {
        let t = s.subrange(1, s.len() as int);
        assert(a[0] == s[0] && s[0] != 0);
        assert(b[0] == s[0]);
        assert(t.subrange(0, i) =~= a.subrange(1, i + 1));
        assert(t.subrange(0, i - 1) =~= b.subrange(1, i));
        assert(crate::bytes::nul_free(t.subrange(0, i))) by {
            assert(forall|k: int| 0 <= k < i ==> #[trigger] t.subrange(0, i)[k] == a[k + 1]);
        }
        lemma_nul_prefix_grows(t, i - 1);
        assert(t[i - 1] == s[i]);
        assert(nul_prefix(a) =~= nul_prefix(b) + seq![s[i]]);
    }
}

} // verus!
