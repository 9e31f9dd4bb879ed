use vstd::prelude::*;

verus! {

/// Why no cards could be made for an article. Each failure concerns one
/// article and leaves the others untouched.
#[derive(Debug, Clone, Copy, PartialEq, Eq)]
pub enum PipelineError {
    /// No bookmark record has the article's bookmark id.
    MissingJoin { bookmark_id: i64 },
    /// The bookmark's URL does not parse, or has no host.
    MalformedUrl { bookmark_id: i64 },
    /// The regex engine did not accept a pattern that the article needed.
    Pattern { bookmark_id: i64 },
}

/// A remark on an article that did not keep its cards from being made.
#[derive(Debug, Clone, Copy, PartialEq, Eq)]
pub enum Diagnostic {
    /// The article has highlights but no block was extracted from its text;
    /// its cards were made from the highlights themselves.
    EmptyExtraction { bookmark_id: i64 },
    /// No highlight was found in the card at this position, so the card
    /// carries no mark.
    UnmatchedHighlight { bookmark_id: i64, card: usize },
}

} // verus!
