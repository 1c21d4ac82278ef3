//! The markup pipeline: from text to tags to the element tree.

use crate::dom::balanced::{lemma_balanced_stream_parses, nests_within, writes_down};
use crate::dom::lexer::{lex, tag_stream, SpecTagContents};
use crate::dom::parser::{parse, tree_of, Node, SpecNode};
use crate::helper::{lift, Error, SpecErrorKind, MAX_DEPTH};
use vstd::prelude::*;

pub mod balanced;
pub mod lexer;
pub mod parser;

verus! {

/// The element tree of a markup text: the tree of its tag stream.
pub open spec fn document(text: Seq<char>) -> Result<SpecNode, SpecErrorKind> {
    match tag_stream(text) {
        Ok(tags) => tree_of(tags),
        Err(e) => Err(e),
    }
}

/// Parses a markup text into its element tree.
pub fn parse_dom(query: String) -> (res: Result<Node, Error>)
    ensures
        lift(res) == document(query@),
{
    let lexed = match lex(query) {
        Ok(tags) => tags,
        Err(e) => {
            return Err(e);
        },
    };
    parse(lexed)
}

/// A text whose tags are balanced and rightly nested parses to the tree
/// that its tags write down: where the tag stream of `text` writes the
/// element tree `node` down, and `node` nests at most `MAX_DEPTH` deep,
/// the document of `text` is `node`.
pub proof fn lemma_balanced_text_parses(
    text: Seq<char>,
    tags: Seq<SpecTagContents>,
    node: SpecNode,
)
    requires
        node.node_type is Element,
        nests_within(node, MAX_DEPTH as nat),
        tag_stream(text) == Ok::<Seq<SpecTagContents>, SpecErrorKind>(tags),
        writes_down(tags, node),
    ensures
        document(text) == Ok::<SpecNode, SpecErrorKind>(node),
{
    lemma_balanced_stream_parses(tags, node);
}

} // verus!
