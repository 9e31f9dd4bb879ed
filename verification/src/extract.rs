use vstd::prelude::*;
use crate::insta_client::Article;
use crate::pattern::find_all;
use crate::pattern::regex_accepted;
use crate::pattern::regex_found;
use crate::pattern::regex_replaced;
use crate::pattern::replace_all;
use crate::text::texts;
use crate::text::NOTHING;

verus! {

/// A footnote anchor: an anchor element around exactly one digit.
pub const FOOTNOTE_ANCHOR: &'static str = r"<a(\s[^>]*)?>\d</a>";

/// Layout that carries no content: the tags of anchors, images, divisions
/// and list containers, each with whatever attributes it has, and line
/// breaks. A tag whose name only begins like one of these is none of them.
pub const STRUCTURAL_NOISE: &'static str = r"</?(a|img|div|ul|ol)(\s[^>]*)?/?>|\n";

/// A block: a paragraph, a heading or a list item, from its opening tag to
/// the first closing tag of the same kind.
pub const BLOCK: &'static str =
    r"<p>(.*?)</p>|<h1>(.*?)</h1>|<h2>(.*?)</h2>|<h3>(.*?)</h3>|<h4>(.*?)</h4>|<h5>(.*?)</h5>|<h6>(.*?)</h6>|<li>(.*?)</li>";

/// Whether the regex engine accepts the three patterns of the extraction.
pub open spec fn extraction_accepted() -> bool {
    regex_accepted(FOOTNOTE_ANCHOR@) && regex_accepted(STRUCTURAL_NOISE@) && regex_accepted(BLOCK@)
}

/// The markup without footnote anchors and structural noise.
pub open spec fn cleaned(markup: Seq<char>) -> Seq<char> {
    regex_replaced(STRUCTURAL_NOISE@, regex_replaced(FOOTNOTE_ANCHOR@, markup, NOTHING@), NOTHING@)
}

/// The blocks of an article's markup, each with its enclosing tag, in the
/// order of the document.
pub open spec fn blocks_of(markup: Seq<char>) -> Seq<Seq<char>> {
    regex_found(BLOCK@, cleaned(markup))
}

/// The blocks of raw markup, for every markup whatever its tags. `None`
/// exactly when the regex engine does not accept one of the three patterns,
/// which does not depend on the markup.
pub fn extract_blocks(markup: &str) -> (out: Option<Vec<String>>)
    ensures
        out is Some <==> extraction_accepted(),
        out matches Some(blocks) ==> texts(blocks@) == blocks_of(markup@),
{
    match replace_all(FOOTNOTE_ANCHOR, markup, NOTHING) {
        None => None,
        Some(without_footnotes) => match replace_all(
            STRUCTURAL_NOISE,
            without_footnotes.as_str(),
            NOTHING,
        ) {
            None => None,
            Some(filtered) => find_all(BLOCK, filtered.as_str()),
        },
    }
}

/// The blocks of an article: its paragraphs, headings and list items, in the
/// order of the document and without deduplication. `None` exactly when the
/// regex engine does not accept one of the three patterns.
pub fn article_items(article: &Article) -> (out: Option<Vec<String>>)
    ensures
        out is Some <==> extraction_accepted(),
        out matches Some(blocks) ==> texts(blocks@) == blocks_of(article.text@),
{
    extract_blocks(article.text.as_str())
}

} // verus!
