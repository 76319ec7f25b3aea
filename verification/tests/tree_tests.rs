use bflyt::decode::decode_bflyt;
use bflyt::encode::encode_bflyt;
use bflyt::error::BflytError;
use bflyt::model::{name_bytes, BflytSection};
use bflyt::tree::{build_tree, flatten_tree};

fn pan1(name: &[u8]) -> Vec<u8> {
    let mut b = Vec::new();
    b.extend_from_slice(b"pan1");
    b.extend_from_slice(&84u32.to_le_bytes());
    b.extend_from_slice(&[0, 0, 0, 0]);
    let mut nm = [0u8; 24];
    nm[..name.len()].copy_from_slice(name);
    b.extend_from_slice(&nm);
    b.extend_from_slice(&[0u8; 48]);
    b
}

fn marker(tag: &[u8; 4]) -> Vec<u8> {
    let mut b = Vec::new();
    b.extend_from_slice(tag);
    b.extend_from_slice(&8u32.to_le_bytes());
    b
}

fn whole_file(sections: &[Vec<u8>]) -> Vec<u8> {
    let total: usize = 20 + sections.iter().map(|s| s.len()).sum::<usize>();
    let mut b = Vec::new();
    b.extend_from_slice(b"FLYT");
    b.extend_from_slice(&[0xFF, 0xFE]);
    b.extend_from_slice(&20u16.to_le_bytes());
    b.extend_from_slice(&0u32.to_le_bytes());
    b.extend_from_slice(&(total as u32).to_le_bytes());
    b.extend_from_slice(&(sections.len() as u16).to_le_bytes());
    b.extend_from_slice(&0u16.to_le_bytes());
    for s in sections {
        b.extend_from_slice(s);
    }
    b
}

fn pane_name(s: &BflytSection) -> Vec<u8> {
    match s {
        BflytSection::Pane { pane } => name_bytes(&pane.name),
        _ => panic!("expected a pane"),
    }
}

#[test]
fn marker_pair_attaches_children_in_source_order() {
    // a pas1/pae1 pair wrapping two pan1 children attaches both to the
    // preceding root, in source order; re-emitting reproduces the stream
    let buf = whole_file(&[
        pan1(b"Root"),
        marker(b"pas1"),
        pan1(b"first"),
        pan1(b"second"),
        marker(b"pae1"),
    ]);
    let f = decode_bflyt(&buf).expect("valid file must decode");
    let tree = build_tree(f.sections).expect("balanced stream must build");
    assert_eq!(tree.roots.len(), 1);
    assert_eq!(tree.doc_aux.len(), 0);
    assert_eq!(pane_name(&tree.roots[0].section), b"Root".to_vec());
    assert_eq!(tree.roots[0].children.len(), 2);
    assert_eq!(pane_name(&tree.roots[0].children[0].section), b"first".to_vec());
    assert_eq!(pane_name(&tree.roots[0].children[1].section), b"second".to_vec());
    // flattening re-emits the same wrapper pair around the same children
    let flat = flatten_tree(tree);
    let f2 = bflyt::model::BflytFile { header: f.header, sections: flat };
    assert_eq!(encode_bflyt(&f2), buf);
}

#[test]
fn end_marker_without_scope_is_unbalanced() {
    let buf = whole_file(&[pan1(b"Root"), marker(b"pae1")]);
    let f = decode_bflyt(&buf).expect("the codec accepts unbalanced streams");
    assert!(matches!(build_tree(f.sections), Err(BflytError::UnbalancedScope)));
}

#[test]
fn unclosed_scope_is_unbalanced() {
    let buf = whole_file(&[pan1(b"Root"), marker(b"pas1"), pan1(b"kid")]);
    let f = decode_bflyt(&buf).expect("the codec accepts unbalanced streams");
    assert!(matches!(build_tree(f.sections), Err(BflytError::UnbalancedScope)));
}

#[test]
fn start_marker_without_node_is_unbalanced() {
    let buf = whole_file(&[marker(b"pas1"), pan1(b"kid"), marker(b"pae1")]);
    let f = decode_bflyt(&buf).expect("the codec accepts this stream");
    assert!(matches!(build_tree(f.sections), Err(BflytError::UnbalancedScope)));
}

#[test]
fn group_nests_with_group_markers() {
    let mut grp = Vec::new();
    grp.extend_from_slice(b"grp1");
    grp.extend_from_slice(&12u32.to_le_bytes());
    grp.extend_from_slice(&[1, 2, 3, 4]);
    let buf = whole_file(&[
        grp,
        marker(b"grs1"),
        pan1(b"inner"),
        marker(b"gre1"),
    ]);
    let f = decode_bflyt(&buf).expect("valid file must decode");
    let tree = build_tree(f.sections).expect("balanced stream must build");
    assert_eq!(tree.roots.len(), 1);
    assert!(matches!(tree.roots[0].section, BflytSection::Group { .. }));
    assert_eq!(tree.roots[0].children.len(), 1);
    // a group re-emits group markers, so the bytes come back unchanged
    let flat = flatten_tree(tree);
    let f2 = bflyt::model::BflytFile { header: f.header, sections: flat };
    assert_eq!(encode_bflyt(&f2), buf);
}

#[test]
fn aux_sections_attach_to_last_node_or_document() {
    let mut lyt = Vec::new();
    lyt.extend_from_slice(b"lyt1");
    lyt.extend_from_slice(&12u32.to_le_bytes());
    lyt.extend_from_slice(&[0, 0, 0, 0]);
    let mut usd = Vec::new();
    usd.extend_from_slice(b"usd1");
    usd.extend_from_slice(&12u32.to_le_bytes());
    usd.extend_from_slice(&[7, 7, 7, 7]);
    // lyt1 before any node stays at document scope; usd1 after the pane
    // attaches to it
    let buf = whole_file(&[lyt, pan1(b"Root"), usd]);
    let f = decode_bflyt(&buf).expect("valid file must decode");
    let tree = build_tree(f.sections).expect("stream must build");
    assert_eq!(tree.doc_aux.len(), 1);
    assert!(matches!(tree.doc_aux[0], BflytSection::Layout { .. }));
    assert_eq!(tree.roots.len(), 1);
    assert_eq!(tree.roots[0].aux.len(), 1);
    assert!(matches!(tree.roots[0].aux[0], BflytSection::UserDataList { .. }));
    let flat = flatten_tree(tree);
    let f2 = bflyt::model::BflytFile { header: f.header, sections: flat };
    assert_eq!(encode_bflyt(&f2), buf);
}
