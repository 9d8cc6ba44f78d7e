//! The token that the tokenizer produces and the filters read and change.

use vstd::prelude::*;

verus! {

/// A token of analyzed text: its term, its character offsets in the text
/// (start inclusive, end exclusive) and its position in the token stream.
pub struct NoriToken {
    pub term: String,
    pub start_offset: u32,
    pub end_offset: u32,
    pub position: u32,
}

/// What a [`NoriToken`] holds, as mathematical values.
pub struct NoriTokenView {
    pub term: Seq<char>,
    pub start_offset: u32,
    pub end_offset: u32,
    pub position: u32,
}

impl View for NoriToken {
    type V = NoriTokenView;

    open spec fn view(&self) -> NoriTokenView {
        NoriTokenView {
            term: self.term@,
            start_offset: self.start_offset,
            end_offset: self.end_offset,
            position: self.position,
        }
    }
}

/// The views of the tokens of `tokens`.
pub open spec fn tokens_view(tokens: Seq<NoriToken>) -> Seq<NoriTokenView> {
    tokens.map_values(|t: NoriToken| t@)
}

impl NoriToken {
    /// A token with the given term, offsets and position.
    pub fn new(term: &str, start_offset: u32, end_offset: u32, position: u32) -> (res: NoriToken)
        ensures
            res@ == (NoriTokenView { term: term@, start_offset, end_offset, position }),
    {
        NoriToken { term: crate::text::copy_string(term), start_offset, end_offset, position }
    }
}

} // verus!
