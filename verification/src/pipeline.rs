use crate::parser::{lemma_parse_text_depth, parse_line, parse_text, ParseError};
use crate::tree::{diagram, draw_string, Node};
use vstd::prelude::*;

verus! {

/// Parses a line of text and draws the diagram of its tree. What comes back
/// depends on the text alone: the tree that the grammar gives the text with
/// the diagram that the drawing rules give the tree, or the first error that
/// parsing meets.
pub fn parse_and_draw(line: &String) -> (r: Result<(Box<Node>, String), ParseError>)
    requires
        4 * line@.len() <= usize::MAX,
    ensures
        match parse_text(line@) {
            Ok(tree) => r matches Ok((node, text)) && node@ == tree && text@ == diagram(tree),
            Err(error) => r == Err::<(Box<Node>, String), ParseError>(error),
        },
{
    proof {
        lemma_parse_text_depth(line@);
    }
    match parse_line(line) {
        Ok(node) => {
            let text = draw_string(&node);
            Ok((node, text))
        },
        Err(e) => Err(e),
    }
}

} // verus!
