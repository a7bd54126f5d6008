use vstd::prelude::*;

use crate::errors::{BundleError, ErrModel};
use crate::tree::{preorder, raw_nodes_wf, NodeKind, RawNode, SyntaxTree};

verus! {

#[verifier::external_type_specification]
#[verifier::external_body]
pub struct ExNode<'a>(tree_sitter::Node<'a>);

/// Name for what the bash grammar yields for given bytes: the concrete
/// syntax tree, flattened in pre-order, or nothing when no tree comes back.
/// The parse depends on the source bytes alone.
pub uninterp spec fn bash_nodes_of(s: Seq<u8>) -> Option<Seq<RawNode>>;

/// Relies on tree_sitter::Node::kind; maps each grammar kind the bundler
/// distinguishes onto its own tag, both quoted string kinds onto `Quoted`.
#[verifier::external_body]
fn ts_kind(node: &tree_sitter::Node<'_>) -> (r: NodeKind) {
    match node.kind() {
        "comment" => NodeKind::Comment,
        "command" => NodeKind::Command,
        "command_substitution" => NodeKind::Substitution,
        "word" => NodeKind::Word,
        "string" => NodeKind::Quoted,
        "raw_string" => NodeKind::Quoted,
        _ => NodeKind::Other,
    }
}

/// Relies on tree_sitter::Node's byte spans, named flag and child iteration;
/// records the subtree under `node` in pre-order and returns `node`'s index.
#[verifier::external_body]
fn ts_flatten_node(
    node: tree_sitter::Node<'_>,
    out: &mut Vec<RawNode>,
    parent: Option<usize>,
) -> (r: usize) {
    let idx = out.len();
    let (kind, named) = (ts_kind(&node), node.is_named());
    let (start, end) = (node.start_byte(), node.end_byte());
    out.push(RawNode { kind, named, start, end, parent, children: Vec::new() });
    for k in 0..node.child_count() {
        if let Some(ch) = node.child(k) {
            let c = ts_flatten_node(ch, out, Some(idx));
            out[idx].children.push(c);
        }
    }
    idx
}

/// Relies on tree_sitter::Parser::parse with tree_sitter_bash's grammar and
/// on tree_sitter::Tree::root_node: the tree for given bytes depends on
/// those bytes alone, and the flattening records it in pre-order.
#[verifier::external_body]
fn ts_parse_nodes(source: &Vec<u8>) -> (r: Option<Vec<RawNode>>)
    ensures
        (r is Some <==> bash_nodes_of(source@) is Some),
        (r matches Some(v) ==> v@ == bash_nodes_of(source@).unwrap() && preorder(v@)),
{
    let mut parser = tree_sitter::Parser::new();
    if parser.set_language(&tree_sitter_bash::LANGUAGE.into()).is_err() {
        return None;
    }
    let tree = parser.parse(source.as_slice(), None)?;
    let mut out: Vec<RawNode> = Vec::new();
    ts_flatten_node(tree.root_node(), &mut out, None);
    Some(out)
}

/// Parse a document with the bash grammar into the bundler's own tree.
///
/// Whatever the parser hands back is accepted only after the structural
/// soundness of every node is checked; the parse fails exactly when the
/// grammar yields no tree or yields one the checks refuse, and any failure
/// is `ParseFailure`.
pub fn parse_document(source: &Vec<u8>) -> (r: Result<SyntaxTree, BundleError>)
    ensures
        (r matches Ok(t) ==> t.wf(source@.len()) && preorder(t.nodes@) && (bash_nodes_of(
            source@,
        ) matches Some(ns) && t.nodes@ == ns)),
        (r matches Err(e) ==> e@ == ErrModel::ParseFailure),
        (r is Err <==> (bash_nodes_of(source@) is None || !raw_nodes_wf(
            bash_nodes_of(source@).unwrap(),
            source@.len(),
        ))),
{
    match ts_parse_nodes(source) {
        None => Err(BundleError::ParseFailure),
        Some(nodes) => {
            match SyntaxTree::from_nodes(nodes, source.len()) {
                Some(t) => Ok(t),
                None => Err(BundleError::ParseFailure),
            }
        },
    }
}

} // verus!
