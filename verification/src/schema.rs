//! What the dictionary reads of a field's type: whether its terms are
//! indexed with positions.

use vstd::prelude::*;

verus! {

/// How much a text field records for each term.
#[derive(Debug, Clone, Copy, PartialEq, Eq, Structural)]
pub enum TextIndexingOptions {
    /// The field is not indexed.
    Unindexed,
    /// The field is indexed as one term.
    Untokenized,
    /// Tokenized; the documents of each term.
    TokenizedNoFreq,
    /// Tokenized; the documents of each term and its frequency in each.
    TokenizedWithFreq,
    /// Tokenized; documents, frequencies and the positions of the term.
    TokenizedWithFreqAndPosition,
}

impl TextIndexingOptions {
    /// Positions are recorded under the last option only.
    pub open spec fn spec_is_position_enabled(self) -> bool {
        self == TextIndexingOptions::TokenizedWithFreqAndPosition
    }

    /// Tells whether the positions of the terms are recorded.
    pub fn is_position_enabled(&self) -> (res: bool)
        ensures
            res == self.spec_is_position_enabled(),
    {
        match *self {
            TextIndexingOptions::TokenizedWithFreqAndPosition => true,
            _ => false,
        }
    }
}

/// The options of a text field.
#[derive(Debug, Clone, Copy, PartialEq, Eq, Structural)]
pub struct TextOptions {
    /// How the field is indexed.
    pub indexing: TextIndexingOptions,
    /// Whether the field's text is stored.
    pub stored: bool,
}

impl TextOptions {
    /// How the field is indexed.
    pub fn get_indexing_options(&self) -> (res: TextIndexingOptions)
        ensures
            res == self.indexing,
    {
        self.indexing
    }
}

/// The type of a field.
#[derive(Debug, Clone, Copy, PartialEq, Eq, Structural)]
pub enum FieldType {
    /// Text.
    Str(TextOptions),
    /// Unsigned 64-bit integers.
    U64,
    /// Signed 64-bit integers.
    I64,
}

} // verus!
