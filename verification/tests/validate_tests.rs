use bflyt::decode::decode_bflyt;
use bflyt::encode::encode_bflyt;
use bflyt::model::{
    name_bytes, BflytFile, BflytHeader, BflytSection, ResPaneTest, ResVec3Test, TextureListInner,
    TAG_PAN1,
};
use bflyt::validate::{check_file, check_section};

fn pane_named(name: &[u8]) -> ResPaneTest {
    let mut nm = vec![0u8; 24];
    nm[..name.len()].copy_from_slice(name);
    ResPaneTest {
        flag: 1,
        base_position: 2,
        alpha: 255,
        flag_ex: 0,
        name: nm,
        user_data: vec![0u8; 8],
        pos: ResVec3Test { x: 0, y: 0, z: 0 },
        rot_x: 0,
        rot_y: 0,
        rot_z: 0,
        scale_x: 0x3F80_0000, // 1.0 as a float bit pattern
        scale_y: 0x3F80_0000,
        size_x: 0x42C8_0000, // 100.0
        size_y: 0x4248_0000, // 50.0
    }
}

#[test]
fn constructed_document_encodes_and_decodes_back() {
    let f = BflytFile {
        header: BflytHeader { header_size: 20, version: 0x0202_0000, padding: 0 },
        sections: vec![
            BflytSection::TextureList {
                texture_list: TextureListInner {
                    texture_names: vec![b"skin".to_vec(), b"glow".to_vec()],
                },
            },
            BflytSection::Pane { pane: pane_named(b"W_Root") },
        ],
    };
    assert!(check_file(&f), "a well-formed document must validate");
    let bytes = encode_bflyt(&f);
    let back = decode_bflyt(&bytes).expect("encoder output must decode");
    assert_eq!(back.header.version, 0x0202_0000);
    assert_eq!(back.sections.len(), 2);
    match &back.sections[1] {
        BflytSection::Pane { pane } => {
            assert_eq!(name_bytes(&pane.name), b"W_Root".to_vec());
            assert_eq!(pane.scale_x, 0x3F80_0000);
            assert_eq!(pane.size_y, 0x4248_0000);
        },
        _ => panic!("expected a pane"),
    }
    // one more pass reproduces the same bytes: re-encoding is idempotent
    assert_eq!(encode_bflyt(&back), bytes);
}

#[test]
fn missized_name_buffer_fails_validation() {
    let mut p = pane_named(b"bad");
    p.name.pop(); // 23 bytes instead of the fixed 24
    let f = BflytFile {
        header: BflytHeader { header_size: 20, version: 0, padding: 0 },
        sections: vec![BflytSection::Pane { pane: p }],
    };
    assert!(!check_file(&f));
}

#[test]
fn texture_name_with_nul_fails_validation() {
    let f = BflytFile {
        header: BflytHeader { header_size: 20, version: 0, padding: 0 },
        sections: vec![BflytSection::TextureList {
            texture_list: TextureListInner { texture_names: vec![b"te\0x".to_vec()] },
        }],
    };
    assert!(!check_file(&f));
}

#[test]
fn unknown_section_with_known_tag_fails_validation() {
    // an unknown section may not claim a known tag, else its encoding would
    // decode as that kind
    let s = BflytSection::Unknown { tag: TAG_PAN1, data: vec![] };
    assert!(check_section(&s).is_none());
    let s2 = BflytSection::Unknown { tag: 0x31747365, data: vec![1, 2] };
    assert_eq!(check_section(&s2), Some(10));
}

#[test]
fn name_bytes_without_nul_returns_whole_buffer() {
    let v = b"abcd".to_vec();
    assert_eq!(name_bytes(&v), b"abcd".to_vec());
    let w = b"ab\0cd".to_vec();
    assert_eq!(name_bytes(&w), b"ab".to_vec());
}

#[test]
fn empty_input_is_truncated() {
    let empty: Vec<u8> = Vec::new();
    assert!(matches!(
        decode_bflyt(&empty),
        Err(bflyt::error::BflytError::TruncatedInput)
    ));
}

