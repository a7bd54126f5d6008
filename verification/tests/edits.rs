use shbundle::edit::{apply_edits, Edit};
use shbundle::errors::BundleError;

fn ed(start: usize, end: usize, content: &str) -> Edit {
    Edit { start_byte: start, end_byte: end, new_content: content.as_bytes().to_vec() }
}

#[test]
fn overlapping_edits_are_refused() {
    let text = b"abcdef".to_vec();
    let edits = vec![ed(1, 4, "X"), ed(3, 5, "Y")];
    let err = apply_edits(&text, edits).unwrap_err();
    assert!(matches!(err, BundleError::EditsOverlap));
}

#[test]
fn disjoint_edits_same_result_in_any_insertion_order() {
    let text = b"abcdef".to_vec();
    let forward = vec![ed(0, 2, "AA"), ed(3, 4, "BB"), ed(5, 6, "")];
    let backward = vec![ed(5, 6, ""), ed(3, 4, "BB"), ed(0, 2, "AA")];
    let shuffled = vec![ed(3, 4, "BB"), ed(5, 6, ""), ed(0, 2, "AA")];
    let a = apply_edits(&text, forward).unwrap();
    let b = apply_edits(&text, backward).unwrap();
    let c = apply_edits(&text, shuffled).unwrap();
    assert_eq!(a, b"AAcBBe".to_vec());
    assert_eq!(b, a);
    assert_eq!(c, a);
}

#[test]
fn no_edits_keep_the_text() {
    let text = b"keep me".to_vec();
    let out = apply_edits(&text, Vec::new()).unwrap();
    assert_eq!(out, text);
}

#[test]
fn touching_edits_are_disjoint() {
    let text = b"abcdef".to_vec();
    let edits = vec![ed(0, 3, "x"), ed(3, 6, "y")];
    let out = apply_edits(&text, edits).unwrap();
    assert_eq!(out, b"xy".to_vec());
}

#[test]
fn pure_insertion_at_a_point() {
    let text = b"ab".to_vec();
    let edits = vec![ed(1, 1, "XYZ")];
    let out = apply_edits(&text, edits).unwrap();
    assert_eq!(out, b"aXYZb".to_vec());
}

use shbundle::tree::{NodeKind, RawNode, SyntaxTree};

fn leaf(kind: NodeKind, start: usize, end: usize, parent: usize) -> RawNode {
    RawNode { kind, named: true, start, end, parent: Some(parent), children: Vec::new() }
}

#[test]
fn empty_node_list_is_refused() {
    assert!(SyntaxTree::from_nodes(Vec::new(), 0).is_none());
}

#[test]
fn span_past_document_end_is_refused() {
    let root = RawNode {
        kind: NodeKind::Other,
        named: true,
        start: 0,
        end: 9,
        parent: None,
        children: Vec::new(),
    };
    assert!(SyntaxTree::from_nodes(vec![root], 5).is_none());
}

#[test]
fn child_not_pointing_back_is_refused() {
    let root = RawNode {
        kind: NodeKind::Other,
        named: true,
        start: 0,
        end: 5,
        parent: None,
        children: vec![1],
    };
    let child = RawNode { parent: Some(0), ..leaf(NodeKind::Word, 0, 2, 0) };
    let stray = RawNode { parent: None, ..child };
    assert!(SyntaxTree::from_nodes(vec![root, stray], 5).is_none());
}

#[test]
fn well_formed_tree_is_accepted() {
    let root = RawNode {
        kind: NodeKind::Other,
        named: true,
        start: 0,
        end: 5,
        parent: None,
        children: vec![1, 2],
    };
    let a = leaf(NodeKind::Word, 0, 2, 0);
    let b = leaf(NodeKind::Word, 3, 5, 0);
    let t = SyntaxTree::from_nodes(vec![root, a, b], 5).unwrap();
    assert_eq!(t.nodes.len(), 3);
}

#[test]
fn parsed_root_spans_whole_document() {
    let cases: [&str; 9] = [
        "echo hi\n",
        "  echo hi\n",
        "\n\necho hi\n\n  ",
        "# only a comment",
        "",
        "  ",
        "echo 'abc",
        "}",
        "\u{0}\u{1}x",
    ];
    for src in cases {
        let bytes = src.as_bytes().to_vec();
        let t = shbundle::parse::parse_document(&bytes).unwrap();
        // the root always reaches the document's end; it starts at the
        // first non-blank byte, so at 0 unless the file opens with blanks
        assert_eq!(t.nodes[0].end, bytes.len());
        let lead = bytes
            .iter()
            .take_while(|b| b.is_ascii_whitespace())
            .count();
        assert_eq!(t.nodes[0].start, lead);
    }
}
