use bflyt::decode::{decode_bflyt, decode_section_at};
use bflyt::encode::{encode_bflyt, encode_section};
use bflyt::error::BflytError;
use bflyt::model::{name_bytes, BflytSection};

/// 20-byte file header: magic, little-endian sentinel, header size,
/// version, total size, section count, reserved padding.
fn header(file_size: u32, section_count: u16) -> Vec<u8> {
    let mut b = Vec::new();
    b.extend_from_slice(b"FLYT");
    b.extend_from_slice(&[0xFF, 0xFE]); // byte-order marker 0xFEFF
    b.extend_from_slice(&20u16.to_le_bytes());
    b.extend_from_slice(&0x0202_0000u32.to_le_bytes());
    b.extend_from_slice(&file_size.to_le_bytes());
    b.extend_from_slice(&section_count.to_le_bytes());
    b.extend_from_slice(&0u16.to_le_bytes());
    b
}

/// A `pan1` section: size 84, 24-byte NUL-padded name, zeroed geometry.
fn pan1(name: &[u8]) -> Vec<u8> {
    let mut b = Vec::new();
    b.extend_from_slice(b"pan1");
    b.extend_from_slice(&84u32.to_le_bytes());
    b.extend_from_slice(&[0, 0, 0, 0]); // flag, base position, alpha, extra flags
    let mut nm = [0u8; 24];
    nm[..name.len()].copy_from_slice(name);
    b.extend_from_slice(&nm);
    b.extend_from_slice(&[0u8; 8]); // user data
    b.extend_from_slice(&[0u8; 40]); // pos, rot, scale, size as zero floats
    b
}

fn marker(tag: &[u8; 4]) -> Vec<u8> {
    let mut b = Vec::new();
    b.extend_from_slice(tag);
    b.extend_from_slice(&8u32.to_le_bytes());
    b
}

fn whole_file(sections: &[Vec<u8>]) -> Vec<u8> {
    let total: usize = 20 + sections.iter().map(|s| s.len()).sum::<usize>();
    let mut b = header(total as u32, sections.len() as u16);
    for s in sections {
        b.extend_from_slice(s);
    }
    b
}

#[test]
fn single_pane_decodes_with_name_and_zero_geometry() {
    // header FLYT, byte order 0xFEFF, one pan1 of declared size 8+84 with a
    // 24-byte name "Root" and zeroed geometry
    let buf = whole_file(&[pan1(b"Root")]);
    let f = decode_bflyt(&buf).expect("valid file must decode");
    assert_eq!(f.sections.len(), 1);
    match &f.sections[0] {
        BflytSection::Pane { pane } => {
            assert_eq!(name_bytes(&pane.name), b"Root".to_vec());
            assert_eq!(pane.name.len(), 24);
            assert_eq!(pane.pos.x, 0);
            assert_eq!(pane.pos.y, 0);
            assert_eq!(pane.pos.z, 0);
            assert_eq!(pane.rot_x, 0);
            assert_eq!(pane.rot_y, 0);
            assert_eq!(pane.rot_z, 0);
            assert_eq!(pane.scale_x, 0);
            assert_eq!(pane.scale_y, 0);
            assert_eq!(pane.size_x, 0);
            assert_eq!(pane.size_y, 0);
            assert_eq!(pane.alpha, 0);
        },
        _ => panic!("expected a pane section"),
    }
    // byte-identical round trip on a canonical buffer
    assert_eq!(encode_bflyt(&f), buf);
}

#[test]
fn texture_list_round_trips_with_recomputed_offsets() {
    // txl1 with two offsets pointing at "tex_a\0" and "tex_b\0" directly
    // after the offset table; offsets are measured from the position
    // immediately following the offset array
    let mut sec = Vec::new();
    sec.extend_from_slice(b"txl1");
    sec.extend_from_slice(&32u32.to_le_bytes()); // 8 + 4 + 8 + 12
    sec.extend_from_slice(&2u32.to_le_bytes());
    sec.extend_from_slice(&0u32.to_le_bytes());
    sec.extend_from_slice(&6u32.to_le_bytes());
    sec.extend_from_slice(b"tex_a\0");
    sec.extend_from_slice(b"tex_b\0");
    let buf = whole_file(&[sec]);
    let f = decode_bflyt(&buf).expect("valid file must decode");
    match &f.sections[0] {
        BflytSection::TextureList { texture_list } => {
            assert_eq!(texture_list.texture_names.len(), 2);
            assert_eq!(texture_list.texture_names[0], b"tex_a".to_vec());
            assert_eq!(texture_list.texture_names[1], b"tex_b".to_vec());
        },
        _ => panic!("expected a texture list"),
    }
    // re-encoding reproduces byte-identical offsets for unchanged content
    assert_eq!(encode_bflyt(&f), buf);
}

#[test]
fn unknown_section_round_trips_verbatim() {
    // a tag outside the known set keeps its tag and raw payload bytes
    let mut sec = Vec::new();
    sec.extend_from_slice(b"abcd");
    sec.extend_from_slice(&13u32.to_le_bytes());
    sec.extend_from_slice(&[0xDE, 0xAD, 0xBE, 0xEF, 0x7F]);
    let buf = whole_file(&[sec]);
    let f = decode_bflyt(&buf).expect("unknown tags are not an error");
    match &f.sections[0] {
        BflytSection::Unknown { tag, data } => {
            assert_eq!(tag.to_le_bytes(), *b"abcd");
            assert_eq!(data, &vec![0xDE, 0xAD, 0xBE, 0xEF, 0x7F]);
        },
        _ => panic!("expected an unknown section"),
    }
    assert_eq!(encode_bflyt(&f), buf);
}

/// The fixed 160-byte `txt1` payload with the given conditional offsets;
/// text buffer length comes first, stored text offset is 168.
fn txt1_fixed(
    size: u32,
    text_len: u16,
    id_off: u32,
    lw_off: u32,
    pct_off: u32,
) -> Vec<u8> {
    let mut b = Vec::new();
    b.extend_from_slice(b"txt1");
    b.extend_from_slice(&size.to_le_bytes());
    b.extend_from_slice(&pan1(b"textbox")[8..]); // 76-byte pane block
    b.extend_from_slice(&text_len.to_le_bytes()); // text buffer bytes
    b.extend_from_slice(&text_len.to_le_bytes()); // used text bytes
    b.extend_from_slice(&1u16.to_le_bytes()); // material index
    b.extend_from_slice(&2u16.to_le_bytes()); // font index
    b.push(0); // text position
    b.push(0); // text alignment
    b.extend_from_slice(&0u16.to_le_bytes()); // text box flags
    b.extend_from_slice(&0u32.to_le_bytes()); // italic ratio
    b.extend_from_slice(&168u32.to_le_bytes()); // text offset
    b.extend_from_slice(&[0xFF; 8]); // glyph color pair
    b.extend_from_slice(&0u32.to_le_bytes()); // font size x
    b.extend_from_slice(&0u32.to_le_bytes()); // font size y
    b.extend_from_slice(&0u32.to_le_bytes()); // char space
    b.extend_from_slice(&0u32.to_le_bytes()); // line space
    b.extend_from_slice(&id_off.to_le_bytes());
    b.extend_from_slice(&[0u8; 16]); // shadow offset and scale
    b.extend_from_slice(&[0x80; 8]); // shadow color pair
    b.extend_from_slice(&0u32.to_le_bytes()); // shadow italic ratio
    b.extend_from_slice(&lw_off.to_le_bytes());
    b.extend_from_slice(&pct_off.to_le_bytes());
    b
}

#[test]
fn absent_text_id_decodes_to_none_and_reencodes_as_zero() {
    // text_id_offset == 0 must yield an absent identifier, and re-encode
    // with a zero offset, never a spurious empty string
    let mut sec = txt1_fixed(172, 4, 0, 0, 0);
    sec.extend_from_slice(b"hi\0\0");
    let buf = whole_file(&[sec]);
    let f = decode_bflyt(&buf).expect("valid file must decode");
    match &f.sections[0] {
        BflytSection::TextBox { text_box } => {
            assert!(text_box.text_id.is_none());
            assert_eq!(text_box.text, b"hi\0\0".to_vec());
        },
        _ => panic!("expected a text box"),
    }
    let out = encode_bflyt(&f);
    // stored text_id_offset lives at bytes 128..132 of the section, which
    // starts at 20
    assert_eq!(&out[20 + 128..20 + 132], &[0, 0, 0, 0]);
    assert_eq!(out, buf);
}

#[test]
fn line_widths_present_and_transform_absent() {
    // per_character_transform_offset == 0 with a populated line-width table
    let mut sec = txt1_fixed(192, 4, 0, 172, 0);
    sec.extend_from_slice(b"hi\0\0"); // text at 168..172
    sec.push(2); // line count at 172
    sec.extend_from_slice(&1u32.to_le_bytes()); // line offsets
    sec.extend_from_slice(&2u32.to_le_bytes());
    sec.extend_from_slice(&3u32.to_le_bytes()); // line widths
    sec.extend_from_slice(&4u32.to_le_bytes());
    sec.extend_from_slice(&[0u8; 3]); // padding to four bytes
    assert_eq!(sec.len(), 192);
    let buf = whole_file(&[sec]);
    let f = decode_bflyt(&buf).expect("valid file must decode");
    match &f.sections[0] {
        BflytSection::TextBox { text_box } => {
            assert!(text_box.per_character_transform.is_none());
            assert!(text_box.per_character_transform_animation_info.is_none());
            let lw = text_box.line_widths.as_ref().expect("line widths present");
            assert_eq!(lw.line_offset, vec![1, 2]);
            assert_eq!(lw.line_width, vec![3, 4]);
        },
        _ => panic!("expected a text box"),
    }
    assert_eq!(encode_bflyt(&f), buf);
}

#[test]
fn line_width_table_past_section_end_is_truncated_input() {
    // the declared count would run the table past the section end
    let mut sec = txt1_fixed(176, 4, 0, 172, 0);
    sec.extend_from_slice(b"hi\0\0");
    sec.push(200); // count far larger than the remaining span
    sec.extend_from_slice(&[0u8; 3]);
    let buf = whole_file(&[sec]);
    assert!(matches!(decode_bflyt(&buf), Err(BflytError::TruncatedInput)));
}

#[test]
fn bad_magic_is_rejected() {
    let mut buf = whole_file(&[pan1(b"Root")]);
    buf[0] = b'X';
    assert!(matches!(decode_bflyt(&buf), Err(BflytError::BadMagic)));
}

#[test]
fn big_endian_marker_is_rejected() {
    let mut buf = whole_file(&[pan1(b"Root")]);
    buf[4] = 0xFE;
    buf[5] = 0xFF; // 0xFFFE read little-endian: the big-endian marker
    assert!(matches!(decode_bflyt(&buf), Err(BflytError::UnsupportedByteOrder)));
}

#[test]
fn truncated_header_is_rejected() {
    let buf = header(20, 0)[..12].to_vec();
    assert!(matches!(decode_bflyt(&buf), Err(BflytError::TruncatedInput)));
}

#[test]
fn wrong_file_size_field_is_size_mismatch() {
    let mut buf = whole_file(&[pan1(b"Root")]);
    buf[12] = buf[12].wrapping_add(4);
    assert!(matches!(decode_bflyt(&buf), Err(BflytError::SizeMismatch)));
}

#[test]
fn truncated_section_is_rejected() {
    let mut buf = whole_file(&[pan1(b"Root")]);
    buf.truncate(buf.len() - 10);
    buf[12] = (buf.len() as u32).to_le_bytes()[0]; // keep file size consistent
    assert!(matches!(decode_bflyt(&buf), Err(BflytError::TruncatedInput)));
}

#[test]
fn wrong_pane_size_is_size_mismatch() {
    let mut sec = pan1(b"Root");
    sec[4] = 85; // declared length not 8 + 76
    sec.push(0);
    let buf = whole_file(&[sec]);
    assert!(matches!(decode_bflyt(&buf), Err(BflytError::SizeMismatch)));
}

#[test]
fn marker_with_payload_is_size_mismatch() {
    let mut sec = marker(b"pas1");
    sec[4] = 12;
    sec.extend_from_slice(&[0u8; 4]);
    let buf = whole_file(&[sec]);
    assert!(matches!(decode_bflyt(&buf), Err(BflytError::SizeMismatch)));
}

#[test]
fn picture_round_trips() {
    let mut sec = Vec::new();
    sec.extend_from_slice(b"pic1");
    sec.extend_from_slice(&(104u32 + 32).to_le_bytes());
    sec.extend_from_slice(&pan1(b"picture")[8..]);
    sec.extend_from_slice(&[1, 2, 3, 4, 5, 6, 7, 8, 9, 10, 11, 12, 13, 14, 15, 16]); // vertex colors
    sec.extend_from_slice(&7u16.to_le_bytes()); // material index
    sec.push(1); // one texture-coordinate quad
    sec.push(0); // flags
    sec.extend_from_slice(&[0u8; 32]); // the quad
    let buf = whole_file(&[sec]);
    let f = decode_bflyt(&buf).expect("valid file must decode");
    match &f.sections[0] {
        BflytSection::Picture { picture } => {
            assert_eq!(picture.vtx_cols.len(), 4);
            assert_eq!(picture.vtx_cols[0].r, 1);
            assert_eq!(picture.vtx_cols[3].a, 16);
            assert_eq!(picture.material_idx, 7);
            assert_eq!(picture.tex_coords.len(), 1);
        },
        _ => panic!("expected a picture"),
    }
    assert_eq!(encode_bflyt(&f), buf);
}

#[test]
fn part_with_nested_section_round_trips() {
    // a prt1 whose single property points at a nested usd1 section through
    // its extension-user-data offset; offsets are section-relative
    let mut nested = Vec::new();
    nested.extend_from_slice(b"usd1");
    nested.extend_from_slice(&12u32.to_le_bytes());
    nested.extend_from_slice(&[9, 9, 9, 9]);
    // head: 8 hdr + 76 pane + 4 count + 8 magnify = 96, one property 40,
    // name "P" + NUL + 2 pad = 140, nested at 140
    let total = 140 + nested.len() as u32;
    let mut sec = Vec::new();
    sec.extend_from_slice(b"prt1");
    sec.extend_from_slice(&total.to_le_bytes());
    sec.extend_from_slice(&pan1(b"part")[8..]);
    sec.extend_from_slice(&1u32.to_le_bytes()); // property count
    sec.extend_from_slice(&[0u8; 8]); // magnify
    let mut nm = [0u8; 24];
    nm[..4].copy_from_slice(b"prop");
    sec.extend_from_slice(&nm);
    sec.extend_from_slice(&[1, 0, 0, 0]); // usage flags
    sec.extend_from_slice(&0u32.to_le_bytes()); // property offset: absent
    sec.extend_from_slice(&140u32.to_le_bytes()); // ext user data offset
    sec.extend_from_slice(&0u32.to_le_bytes()); // basic info offset: absent
    sec.extend_from_slice(b"P\0\0\0"); // part name, padded to four
    sec.extend_from_slice(&nested);
    assert_eq!(sec.len(), total as usize);
    let buf = whole_file(&[sec]);
    let f = decode_bflyt(&buf).expect("valid file must decode");
    match &f.sections[0] {
        BflytSection::Part { part } => {
            assert_eq!(part.part_name, b"P".to_vec());
            assert_eq!(part.properties.len(), 1);
            let p = &part.properties[0];
            assert_eq!(name_bytes(&p.name), b"prop".to_vec());
            assert!(p.property.is_none());
            assert!(p.pane_basic_info.is_none());
            match p.ext_user_data.as_deref() {
                Some(BflytSection::UserDataList { data }) => {
                    assert_eq!(data, &vec![9, 9, 9, 9]);
                },
                _ => panic!("expected a nested user-data section"),
            }
        },
        _ => panic!("expected a part"),
    }
    assert_eq!(encode_bflyt(&f), buf);
}

#[test]
fn part_size_mismatch_is_rejected() {
    // nested reads must end exactly at the declared section length
    let mut sec = Vec::new();
    sec.extend_from_slice(b"prt1");
    sec.extend_from_slice(&104u32.to_le_bytes()); // 4 bytes longer than consumed
    sec.extend_from_slice(&pan1(b"part")[8..]);
    sec.extend_from_slice(&0u32.to_le_bytes());
    sec.extend_from_slice(&[0u8; 8]);
    sec.extend_from_slice(b"P\0\0\0");
    sec.extend_from_slice(&[0u8; 4]);
    let buf = whole_file(&[sec]);
    assert!(matches!(decode_bflyt(&buf), Err(BflytError::SizeMismatch)));
}

#[test]
fn reencode_is_idempotent() {
    // encode(decode(encode(decode(b)))) == encode(decode(b)), on a file
    // mixing several section kinds
    let mut txl = Vec::new();
    txl.extend_from_slice(b"txl1");
    txl.extend_from_slice(&24u32.to_le_bytes());
    txl.extend_from_slice(&1u32.to_le_bytes());
    txl.extend_from_slice(&0u32.to_le_bytes());
    txl.extend_from_slice(b"a\0\0\0\0\0\0\0");
    let buf = whole_file(&[
        txl,
        pan1(b"Root"),
        marker(b"pas1"),
        pan1(b"kid"),
        marker(b"pae1"),
    ]);
    let once = encode_bflyt(&decode_bflyt(&buf).unwrap());
    let twice = encode_bflyt(&decode_bflyt(&once).unwrap());
    assert_eq!(twice, once);
}

#[test]
fn single_section_decode_reports_consumed_length() {
    let sec = pan1(b"solo");
    let (s, n, cl) = decode_section_at(&sec, 0, sec.len()).expect("section must decode");
    assert_eq!(n, 84);
    assert_eq!(cl, 84);
    assert_eq!(encode_section(&s), sec);
}

#[test]
fn bad_magic_wins_over_short_input() {
    // the magic is read and checked as soon as its four bytes are present,
    // before the header-length check
    let buf = b"XLYT\xFF\xFE\x14\x00\x00\x00".to_vec();
    assert!(matches!(decode_bflyt(&buf), Err(BflytError::BadMagic)));
}
