use vstd::prelude::*;
use url::Url;
use crate::error::Diagnostic;
use crate::error::PipelineError;
use crate::highlights::article_views;
use crate::highlights::HighlightedArticle;
use crate::highlights::HighlightedArticleView;
use crate::pattern::escape;
use crate::pattern::escaped;
use crate::pattern::is_match;
use crate::pattern::regex_accepted;
use crate::pattern::regex_matches;
use crate::pattern::regex_replaced;
use crate::pattern::replace_all;
use crate::text::clone_strings;
use crate::text::join;
use crate::text::joined;
use crate::text::texts;
use crate::text::NOTHING;

verus! {

/// The presentational tags that are taken out of a block before it is
/// compared with the highlights and before it is shown, each with whatever
/// attributes it has. A tag whose name only begins like one of these is none
/// of them.
pub const PRESENTATIONAL_TAGS: &'static str =
    r"</?(em|strong|span|figure|figcaption|picture|li|h1|h2|h3|h4)(\s[^>]*)?/?>";

/// A block that is wrapped in a paragraph or a heading somewhere.
pub const WRAPPED_BLOCK: &'static str =
    r"<p>(.*?)</p>|<h1>(.*?)</h1>|<h2>(.*?)</h2>|<h3>(.*?)</h3>|<h4>(.*?)</h4>|<h5>(.*?)</h5>|<h6>(.*?)</h6>";

/// A paragraph that opens inside a list item.
pub const BULLET_PARAGRAPH: &'static str = "<li><p>";

pub const MARK_OPEN: &'static str = "<mark>";

pub const MARK_CLOSE: &'static str = "</mark>";

pub const PARAGRAPH_OPEN: &'static str = "<p>";

pub const PARAGRAPH_CLOSE: &'static str = "</p>";

pub const GROUP_OPEN: &'static str = "(";

pub const GROUP_CLOSE: &'static str = ")";

pub const ALTERNATIVE: &'static str = "|";

/// The highlight cards of one article: what the pipeline produces and the
/// corpus stores.
#[derive(Debug, Clone, Default, PartialEq, Eq)]
pub struct ArticleCards {
    pub title: String,
    pub bookmark_id: i64,
    pub url: String,
    pub domain: String,
    pub cards: Vec<String>,
    pub ranking: i64,
}

/// An `ArticleCards` as plain mathematical data.
pub struct ArticleCardsView {
    pub title: Seq<char>,
    pub bookmark_id: i64,
    pub url: Seq<char>,
    pub domain: Seq<char>,
    pub cards: Seq<Seq<char>>,
    pub ranking: i64,
}

impl View for ArticleCards {
    type V = ArticleCardsView;

    open spec fn view(&self) -> ArticleCardsView {
        ArticleCardsView {
            title: self.title@,
            bookmark_id: self.bookmark_id,
            url: self.url@,
            domain: self.domain@,
            cards: texts(self.cards@),
            ranking: self.ranking,
        }
    }
}

/// The views of a corpus, article by article.
pub open spec fn corpus_view(articles: Seq<ArticleCards>) -> Seq<ArticleCardsView> {
    Seq::new(articles.len(), |i: int| articles[i]@)
}

/// The cards of one article together with the remarks made while they were
/// built.
#[derive(Debug, Clone, PartialEq, Eq)]
pub struct CardReport {
    pub card: ArticleCards,
    pub diagnostics: Vec<Diagnostic>,
}

/// What a run over many articles leaves: the cards of the articles that
/// went through, the remarks on them, and one failure for each article that
/// did not.
#[derive(Debug, Clone, PartialEq, Eq)]
pub struct Run {
    pub cards: Vec<ArticleCards>,
    pub diagnostics: Vec<Diagnostic>,
    pub failures: Vec<PipelineError>,
}

/// The host of `url`, written as text, as the URL parser finds it; `None`
/// where the text is no URL or the URL has no host.
pub uninterp spec fn url_host(url: Seq<char>) -> Option<Seq<char>>;

/// A block without its presentational tags.
pub open spec fn stripped(block: Seq<char>) -> Seq<char> {
    regex_replaced(PRESENTATIONAL_TAGS@, block, NOTHING@)
}

/// The pattern group that matches `fragment` literally.
pub open spec fn group_of(fragment: Seq<char>) -> Seq<char> {
    GROUP_OPEN@ + escaped(fragment) + GROUP_CLOSE@
}

/// One pattern that matches any of the fragments literally.
pub open spec fn alternation(fragments: Seq<Seq<char>>) -> Seq<char> {
    joined(Seq::new(fragments.len(), |i: int| group_of(fragments[i])), ALTERNATIVE@)
}

/// Whether a block is taken for a card: there are fragments and, without its
/// presentational tags, the block contains one of them.
pub open spec fn is_selected(block: Seq<char>, fragments: Seq<Seq<char>>) -> bool {
    fragments.len() > 0 && regex_matches(alternation(fragments), stripped(block))
}

/// For each block, whether it is taken.
pub open spec fn selected_flags(blocks: Seq<Seq<char>>, fragments: Seq<Seq<char>>) -> Seq<bool> {
    Seq::new(blocks.len(), |i: int| is_selected(blocks[i], fragments))
}

/// The blocks whose flag is set, in order. A block without a flag is left
/// out.
pub open spec fn flagged(blocks: Seq<Seq<char>>, flags: Seq<bool>) -> Seq<Seq<char>>
    decreases blocks.len(),
{
    if blocks.len() == 0 {
        Seq::<Seq<char>>::empty()
    } else if blocks.len() <= flags.len() && flags[blocks.len() - 1] {
        flagged(blocks.drop_last(), flags).push(blocks.last())
    } else {
        flagged(blocks.drop_last(), flags)
    }
}

/// The flagged blocks, or the fallback where no block is flagged.
pub open spec fn chosen_blocks(
    blocks: Seq<Seq<char>>,
    flags: Seq<bool>,
    fallback: Seq<Seq<char>>,
) -> Seq<Seq<char>> {
    if flagged(blocks, flags).len() == 0 {
        fallback
    } else {
        flagged(blocks, flags)
    }
}

/// What a fragment becomes where it is found.
pub open spec fn mark_of(fragment: Seq<char>) -> Seq<char> {
    MARK_OPEN@ + fragment + MARK_CLOSE@
}

/// `text` after each fragment in turn had its occurrences wrapped in a mark.
pub open spec fn marked(text: Seq<char>, fragments: Seq<Seq<char>>) -> Seq<char>
    decreases fragments.len(),
{
    if fragments.len() == 0 {
        text
    } else {
        regex_replaced(
            escaped(fragments.last()),
            marked(text, fragments.drop_last()),
            mark_of(fragments.last()),
        )
    }
}

/// `text` inside a paragraph, unless it is said to be wrapped already.
pub open spec fn wrapped(text: Seq<char>, is_wrapped: bool) -> Seq<char> {
    if is_wrapped {
        text
    } else {
        PARAGRAPH_OPEN@ + text + PARAGRAPH_CLOSE@
    }
}

/// A marked block made into a card: a paragraph inside a list item becomes a
/// plain paragraph, and a block without a paragraph or heading is put inside
/// a paragraph.
pub open spec fn finished(text: Seq<char>) -> Seq<char> {
    let plain = regex_replaced(BULLET_PARAGRAPH@, text, PARAGRAPH_OPEN@);
    wrapped(plain, regex_matches(WRAPPED_BLOCK@, plain))
}

/// The block as it stands before it is finished: stripped and marked.
pub open spec fn marked_block(block: Seq<char>, fragments: Seq<Seq<char>>) -> Seq<char> {
    marked(stripped(block), fragments)
}

/// The card that a block becomes.
pub open spec fn card_text(block: Seq<char>, fragments: Seq<Seq<char>>) -> Seq<char> {
    finished(marked_block(block, fragments))
}

/// Whether the block carries a mark once the fragments were applied.
pub open spec fn has_mark(block: Seq<char>, fragments: Seq<Seq<char>>) -> bool {
    regex_matches(MARK_OPEN@, marked_block(block, fragments))
}

/// The blocks that become the cards of an article.
pub open spec fn card_blocks(a: HighlightedArticleView) -> Seq<Seq<char>> {
    chosen_blocks(
        a.article_items,
        selected_flags(a.article_items, a.raw_highlights),
        a.raw_highlights,
    )
}

/// The cards of an article, in order.
pub open spec fn cards_of(a: HighlightedArticleView) -> Seq<Seq<char>> {
    Seq::new(card_blocks(a).len(), |i: int| card_text(card_blocks(a)[i], a.raw_highlights))
}

/// For each card of an article, whether it carries a mark.
pub open spec fn marks_of(a: HighlightedArticleView) -> Seq<bool> {
    Seq::new(card_blocks(a).len(), |i: int| has_mark(card_blocks(a)[i], a.raw_highlights))
}

/// The card record of an article whose URL has a host.
pub open spec fn card_of(a: HighlightedArticleView) -> ArticleCardsView {
    ArticleCardsView {
        title: a.title,
        bookmark_id: a.bookmark_id,
        url: a.url,
        domain: url_host(a.url).unwrap(),
        cards: cards_of(a),
        ranking: 0,
    }
}

/// One remark for each card without a mark, in the order of the cards.
pub open spec fn unmatched(bookmark_id: i64, marks: Seq<bool>) -> Seq<Diagnostic>
    decreases marks.len(),
{
    if marks.len() == 0 {
        Seq::<Diagnostic>::empty()
    } else if marks.last() {
        unmatched(bookmark_id, marks.drop_last())
    } else {
        unmatched(bookmark_id, marks.drop_last()).push(
            Diagnostic::UnmatchedHighlight { bookmark_id, card: (marks.len() - 1) as usize },
        )
    }
}

/// The remarks on an article: first that nothing was extracted, where that
/// is so, then the cards without a mark.
pub open spec fn diagnosis(bookmark_id: i64, empty_extraction: bool, marks: Seq<bool>) -> Seq<
    Diagnostic,
> {
    if empty_extraction {
        seq![Diagnostic::EmptyExtraction { bookmark_id }] + unmatched(bookmark_id, marks)
    } else {
        unmatched(bookmark_id, marks)
    }
}

/// Whether an article has highlights but no extracted block.
pub open spec fn is_empty_extraction(a: HighlightedArticleView) -> bool {
    a.article_items.len() == 0 && a.raw_highlights.len() > 0
}

/// The remarks on an article.
pub open spec fn diagnostics_of(a: HighlightedArticleView) -> Seq<Diagnostic> {
    diagnosis(a.bookmark_id, is_empty_extraction(a), marks_of(a))
}

/// Whether the regex engine accepts the pattern of every fragment.
pub open spec fn fragments_accepted(fragments: Seq<Seq<char>>) -> bool {
    forall|i: int| 0 <= i < fragments.len() ==> regex_accepted(escaped(#[trigger] fragments[i]))
}

/// Whether the regex engine accepts what telling the blocks with a fragment
/// from the others needs: nothing where there is no block or no fragment,
/// else the pattern of the presentational tags and the alternation of the
/// fragments.
pub open spec fn flags_accepted(blocks: Seq<Seq<char>>, fragments: Seq<Seq<char>>) -> bool {
    blocks.len() == 0 || fragments.len() == 0 || (regex_accepted(PRESENTATIONAL_TAGS@)
        && regex_accepted(alternation(fragments)))
}

/// Whether the regex engine accepts the two patterns that finishing a card
/// needs.
pub open spec fn finish_accepted() -> bool {
    regex_accepted(BULLET_PARAGRAPH@) && regex_accepted(WRAPPED_BLOCK@)
}

/// Whether the regex engine accepts every pattern that the cards of the
/// article need. An article without fragments has no card and needs none. Any
/// other needs the pattern of the presentational tags, that of each
/// fragment, that of the mark and the two of the finish, and, where it has
/// blocks, the alternation of its fragments.
pub open spec fn cards_accepted(a: HighlightedArticleView) -> bool {
    a.raw_highlights.len() == 0 || {
        &&& regex_accepted(PRESENTATIONAL_TAGS@)
        &&& fragments_accepted(a.raw_highlights)
        &&& regex_accepted(MARK_OPEN@)
        &&& finish_accepted()
        &&& a.article_items.len() == 0 || regex_accepted(alternation(a.raw_highlights))
    }
}

/// Whether the cards of the article can be built: its URL has a host and the
/// regex engine accepts every pattern that its cards need.
pub open spec fn is_built(a: HighlightedArticleView) -> bool {
    url_host(a.url) is Some && cards_accepted(a)
}

/// The failure of an article whose cards cannot be built: `MalformedUrl`
/// where its URL has no host, `Pattern` else.
pub open spec fn failure_of(a: HighlightedArticleView) -> PipelineError {
    if url_host(a.url) is None {
        PipelineError::MalformedUrl { bookmark_id: a.bookmark_id }
    } else {
        PipelineError::Pattern { bookmark_id: a.bookmark_id }
    }
}

/// What building the cards of an article gives: the cards and remarks that
/// the article determines, exactly when its cards can be built; its failure
/// otherwise.
pub open spec fn built(a: HighlightedArticleView, out: Result<CardReport, PipelineError>) -> bool {
    match out {
        Ok(report) => {
            &&& is_built(a)
            &&& report.card@ == card_of(a)
            &&& report.diagnostics@ == diagnostics_of(a)
        },
        Err(e) => !is_built(a) && e == failure_of(a),
    }
}

/// The card records of the articles whose cards can be built, in the order
/// of the articles.
pub open spec fn corpus_of(articles: Seq<HighlightedArticleView>) -> Seq<ArticleCardsView>
    decreases articles.len(),
{
    if articles.len() == 0 {
        Seq::<ArticleCardsView>::empty()
    } else if is_built(articles.last()) {
        corpus_of(articles.drop_last()).push(card_of(articles.last()))
    } else {
        corpus_of(articles.drop_last())
    }
}

/// The remarks on the articles whose cards can be built, in the order of
/// the articles.
pub open spec fn remarks_of(articles: Seq<HighlightedArticleView>) -> Seq<Diagnostic>
    decreases articles.len(),
{
    if articles.len() == 0 {
        Seq::<Diagnostic>::empty()
    } else if is_built(articles.last()) {
        remarks_of(articles.drop_last()) + diagnostics_of(articles.last())
    } else {
        remarks_of(articles.drop_last())
    }
}

/// The failures of the articles whose cards cannot be built, in the order
/// of the articles.
pub open spec fn failures_of(articles: Seq<HighlightedArticleView>) -> Seq<PipelineError>
    decreases articles.len(),
{
    if articles.len() == 0 {
        Seq::<PipelineError>::empty()
    } else if is_built(articles.last()) {
        failures_of(articles.drop_last())
    } else {
        failures_of(articles.drop_last()).push(failure_of(articles.last()))
    }
}

/// Every article gives either a card record or a failure. Where the cards
/// of every article can be built, there is one card record for each article,
/// in the order of the articles, and no failure.
pub proof fn lemma_corpus_of(articles: Seq<HighlightedArticleView>)
    ensures
        corpus_of(articles).len() + failures_of(articles).len() == articles.len(),
        (forall|i: int| 0 <= i < articles.len() ==> is_built(#[trigger] articles[i])) ==> {
            &&& failures_of(articles).len() == 0
            &&& corpus_of(articles).len() == articles.len()
            &&& forall|i: int|
                0 <= i < articles.len() ==> (#[trigger] corpus_of(articles)[i]) == card_of(
                    articles[i],
                )
        },
    decreases articles.len(),
{
    if articles.len() > 0 {
        lemma_corpus_of(articles.drop_last());
        if forall|i: int| 0 <= i < articles.len() ==> is_built(#[trigger] articles[i]) {
            assert forall|i: int| 0 <= i < articles.drop_last().len() implies is_built(
                #[trigger] articles.drop_last()[i],
            ) by {
                assert(is_built(articles[i]));
            }
            assert(is_built(articles[articles.len() - 1]));
            assert forall|i: int| 0 <= i < articles.len() implies (#[trigger] corpus_of(
                articles,
            )[i]) == card_of(articles[i]) by {
                if i < articles.len() - 1 {
                    assert(corpus_of(articles)[i] == corpus_of(articles.drop_last())[i]);
                    assert(articles.drop_last()[i] == articles[i]);
                }
            }
        }
    }
}

/// The card record of an article does not depend on the other articles: an
/// article whose cards can be built has its card record in the corpus, and
/// one whose cards cannot be built has its failure among the failures,
/// whatever becomes of the others.
pub proof fn lemma_each_article_counts(articles: Seq<HighlightedArticleView>, k: int)
    requires
        0 <= k < articles.len(),
    ensures
        is_built(articles[k]) ==> corpus_of(articles).contains(card_of(articles[k])),
        !is_built(articles[k]) ==> failures_of(articles).contains(failure_of(articles[k])),
    decreases articles.len(),
{
    let front = articles.drop_last();
    if k == articles.len() - 1 {
        if is_built(articles[k]) {
            assert(corpus_of(articles)[corpus_of(front).len() as int] == card_of(articles[k]));
        } else {
            assert(failures_of(articles)[failures_of(front).len() as int] == failure_of(
                articles[k],
            ));
        }
    } else {
        lemma_each_article_counts(front, k);
        assert(front[k] == articles[k]);
        if is_built(articles[k]) {
            let x = choose|x: int|
                0 <= x < corpus_of(front).len() && corpus_of(front)[x] == card_of(articles[k]);
            assert(corpus_of(articles)[x] == card_of(articles[k]));
        } else {
            let x = choose|x: int|
                0 <= x < failures_of(front).len() && failures_of(front)[x] == failure_of(
                    articles[k],
                );
            assert(failures_of(articles)[x] == failure_of(articles[k]));
        }
    }
}

/// No more blocks are taken than there are blocks, and every block that is
/// taken is one of the blocks.
pub proof fn lemma_flagged_len(blocks: Seq<Seq<char>>, flags: Seq<bool>)
    ensures
        flagged(blocks, flags).len() <= blocks.len(),
        forall|i: int|
            0 <= i < flagged(blocks, flags).len() ==> blocks.contains(
                #[trigger] flagged(blocks, flags)[i],
            ),
    decreases blocks.len(),
{
    if blocks.len() > 0 {
        lemma_flagged_len(blocks.drop_last(), flags);
        let f = flagged(blocks, flags);
        assert forall|i: int| 0 <= i < f.len() implies blocks.contains(#[trigger] f[i]) by {
            if i < flagged(blocks.drop_last(), flags).len() {
                let b = flagged(blocks.drop_last(), flags)[i];
                assert(blocks.drop_last().contains(b));
                let k = choose|k: int| 0 <= k < blocks.drop_last().len() && blocks.drop_last()[k] == b;
                assert(blocks[k] == b);
            } else {
                assert(blocks[blocks.len() - 1] == f[i]);
            }
        }
    }
}

/// An article without extracted blocks gets one card for each of its
/// highlight fragments, and an article with a highlight fragment gets at
/// least one card.
pub proof fn lemma_fallback(a: HighlightedArticleView)
    ensures
        a.article_items.len() == 0 ==> cards_of(a).len() == a.raw_highlights.len(),
        a.article_items.len() == 0 ==> card_blocks(a) == a.raw_highlights,
        a.raw_highlights.len() > 0 ==> cards_of(a).len() > 0,
{
    lemma_flagged_len(a.article_items, selected_flags(a.article_items, a.raw_highlights));
}

/// An article without highlight fragments has no card.
pub proof fn lemma_no_fragments_no_blocks(a: HighlightedArticleView)
    ensures
        a.raw_highlights.len() == 0 ==> card_blocks(a).len() == 0 && cards_of(a).len() == 0,
{
    if a.raw_highlights.len() == 0 {
        lemma_none_flagged(a.article_items, selected_flags(a.article_items, a.raw_highlights));
    }
}

/// Where no flag is set, no block is taken.
pub proof fn lemma_none_flagged(blocks: Seq<Seq<char>>, flags: Seq<bool>)
    requires
        forall|i: int| 0 <= i < flags.len() ==> !flags[i],
    ensures
        flagged(blocks, flags).len() == 0,
    decreases blocks.len(),
{
    if blocks.len() > 0 {
        lemma_none_flagged(blocks.drop_last(), flags);
    }
}

/// Two blocks that are the same once their presentational tags are gone are
/// taken or left together, get the same marks and become the same card. So
/// building the cards again from a text that strips to what the block
/// stripped to puts the marks where they were.
pub proof fn lemma_marks_follow_stripped_text(
    first: Seq<char>,
    second: Seq<char>,
    fragments: Seq<Seq<char>>,
)
    requires
        stripped(first) == stripped(second),
    ensures
        is_selected(first, fragments) == is_selected(second, fragments),
        marked_block(first, fragments) == marked_block(second, fragments),
        has_mark(first, fragments) == has_mark(second, fragments),
        card_text(first, fragments) == card_text(second, fragments),
{
}

/// `Url::parse` followed by `Url::host`, the host written out as text.
/// `None` where the text does not parse as a URL or the URL has no host;
/// either way the answer depends on the text alone.
#[verifier::external_body]
fn parse_host(url: &str) -> (host: Option<String>)
    ensures
        match host {
            Some(h) => url_host(url@) == Some(h@),
            None => url_host(url@) is None,
        },
{
    match Url::parse(url) {
        Ok(parsed) => parsed.host().map(|h| h.to_string()),
        Err(_) => None,
    }
}

/// The pattern that matches any of the fragments literally.
pub fn alternation_pattern(fragments: &Vec<String>) -> (pattern: String)
    ensures
        pattern@ == alternation(texts(fragments@)),
{
    let mut groups: Vec<String> = Vec::new();
    let mut i: usize = 0;
    while i < fragments.len()
        invariant
            i <= fragments.len(),
            groups.len() == i,
            forall|j: int| 0 <= j < i ==> groups@[j]@ == group_of(fragments@[j]@),
        decreases fragments.len() - i,
    {
        let quoted = escape(fragments[i].as_str());
        let mut group = String::from_str(GROUP_OPEN);
        group.append(quoted.as_str());
        group.append(GROUP_CLOSE);
        groups.push(group);
        i += 1;
    }
    assert(texts(groups@) =~= Seq::new(
        texts(fragments@).len(),
        |i: int| group_of(texts(fragments@)[i]),
    ));
    join(&groups, ALTERNATIVE)
}

/// A block without its presentational tags. `None` exactly when the regex
/// engine does not accept the pattern of the tags.
pub fn strip_tags(block: &str) -> (out: Option<String>)
    ensures
        out is Some <==> regex_accepted(PRESENTATIONAL_TAGS@),
        out matches Some(s) ==> s@ == stripped(block@),
{
    replace_all(PRESENTATIONAL_TAGS, block, NOTHING)
}

/// For each block, whether it contains one of the fragments once its
/// presentational tags are gone. `None` exactly when there are blocks and
/// fragments and the regex engine does not accept the pattern of the tags or
/// the alternation of the fragments.
pub fn match_flags(blocks: &Vec<String>, fragments: &Vec<String>) -> (out: Option<Vec<bool>>)
    ensures
        out is Some <==> flags_accepted(texts(blocks@), texts(fragments@)),
        out matches Some(flags) ==> flags@ == selected_flags(texts(blocks@), texts(fragments@)),
{
    let mut flags: Vec<bool> = Vec::new();
    let pattern = alternation_pattern(fragments);
    let mut i: usize = 0;
    while i < blocks.len()
        invariant
            i <= blocks.len(),
            flags.len() == i,
            pattern@ == alternation(texts(fragments@)),
            i > 0 ==> flags_accepted(texts(blocks@), texts(fragments@)),
            forall|j: int|
                0 <= j < i ==> flags@[j] == is_selected(blocks@[j]@, texts(fragments@)),
        decreases blocks.len() - i,
    {
        if fragments.len() == 0 {
            flags.push(false);
        } else {
            let plain = match strip_tags(blocks[i].as_str()) {
                None => {
                    return None;
                },
                Some(s) => s,
            };
            match is_match(pattern.as_str(), plain.as_str()) {
                None => {
                    return None;
                },
                Some(found) => {
                    flags.push(found);
                },
            }
        }
        i += 1;
    }
    assert(flags@ =~= selected_flags(texts(blocks@), texts(fragments@)));
    Some(flags)
}

/// The blocks whose flag is set or, where none is, the fallback.
pub fn select_blocks(blocks: &Vec<String>, flags: &Vec<bool>, fallback: &Vec<String>) -> (out: Vec<
    String,
>)
    ensures
        texts(out@) == chosen_blocks(texts(blocks@), flags@, texts(fallback@)),
{
    let mut taken: Vec<String> = Vec::new();
    let mut i: usize = 0;
    assert(texts(blocks@).take(0) =~= Seq::<Seq<char>>::empty());
    assert(texts(taken@) =~= Seq::<Seq<char>>::empty());
    while i < blocks.len()
        invariant
            i <= blocks.len(),
            texts(taken@) == flagged(texts(blocks@).take(i as int), flags@),
        decreases blocks.len() - i,
    {
        proof {
            let t = texts(blocks@);
            assert(t.take(i + 1).drop_last() == t.take(i as int));
            assert(t.take(i + 1).last() == blocks@[i as int]@);
        }
        let ghost before = texts(taken@);
        if i < flags.len() && flags[i] {
            taken.push(blocks[i].clone());
            assert(texts(taken@) =~= before.push(blocks@[i as int]@));
        }
        i += 1;
    }
    assert(texts(blocks@).take(blocks.len() as int) == texts(blocks@));
    if taken.len() == 0 {
        clone_strings(fallback)
    } else {
        taken
    }
}

/// `text` after each fragment in turn had its occurrences wrapped in a mark.
/// `None` exactly when the regex engine does not accept the pattern of one of
/// the fragments.
pub fn mark_block(text: &str, fragments: &Vec<String>) -> (out: Option<String>)
    ensures
        out is Some <==> fragments_accepted(texts(fragments@)),
        out matches Some(s) ==> s@ == marked(text@, texts(fragments@)),
{
    let mut current = String::from_str(text);
    let mut i: usize = 0;
    assert(texts(fragments@).take(0) =~= Seq::<Seq<char>>::empty());
    while i < fragments.len()
        invariant
            i <= fragments.len(),
            current@ == marked(text@, texts(fragments@).take(i as int)),
            forall|j: int|
                0 <= j < i ==> regex_accepted(escaped(#[trigger] texts(fragments@)[j])),
        decreases fragments.len() - i,
    {
        proof {
            let t = texts(fragments@);
            assert(t.take(i + 1).drop_last() == t.take(i as int));
            assert(t.take(i + 1).last() == fragments@[i as int]@);
        }
        let pattern = escape(fragments[i].as_str());
        let mut mark = String::from_str(MARK_OPEN);
        mark.append(fragments[i].as_str());
        mark.append(MARK_CLOSE);
        match replace_all(pattern.as_str(), current.as_str(), mark.as_str()) {
            None => {
                assert(!regex_accepted(escaped(texts(fragments@)[i as int])));
                return None;
            },
            Some(next) => {
                current = next;
            },
        }
        i += 1;
    }
    assert(texts(fragments@).take(fragments.len() as int) == texts(fragments@));
    Some(current)
}

/// `text` inside a paragraph, unless it is said to be wrapped already.
pub fn wrap_paragraph(text: String, is_wrapped: bool) -> (out: String)
    ensures
        out@ == wrapped(text@, is_wrapped),
{
    if is_wrapped {
        text
    } else {
        let mut out = String::from_str(PARAGRAPH_OPEN);
        out.append(text.as_str());
        out.append(PARAGRAPH_CLOSE);
        out
    }
}

/// Makes a marked block into a card. `None` exactly when the regex engine
/// does not accept one of the two patterns of the finish.
pub fn finish_card(text: &str) -> (out: Option<String>)
    ensures
        out is Some <==> finish_accepted(),
        out matches Some(s) ==> s@ == finished(text@),
{
    match replace_all(BULLET_PARAGRAPH, text, PARAGRAPH_OPEN) {
        None => None,
        Some(plain) => match is_match(WRAPPED_BLOCK, plain.as_str()) {
            None => None,
            Some(is_wrapped) => Some(wrap_paragraph(plain, is_wrapped)),
        },
    }
}

/// The remarks on an article, given whether nothing was extracted and, for
/// each card, whether it carries a mark.
pub fn diagnose(bookmark_id: i64, empty_extraction: bool, marks: &Vec<bool>) -> (out: Vec<
    Diagnostic,
>)
    ensures
        out@ == diagnosis(bookmark_id, empty_extraction, marks@),
{
    let mut out: Vec<Diagnostic> = Vec::new();
    if empty_extraction {
        out.push(Diagnostic::EmptyExtraction { bookmark_id });
    }
    let ghost head = out@;
    let mut i: usize = 0;
    assert(marks@.take(0) =~= Seq::<bool>::empty());
    assert(out@ =~= head + unmatched(bookmark_id, marks@.take(0)));
    while i < marks.len()
        invariant
            i <= marks.len(),
            out@ == head + unmatched(bookmark_id, marks@.take(i as int)),
        decreases marks.len() - i,
    {
        proof {
            assert(marks@.take(i + 1).drop_last() == marks@.take(i as int));
            assert(marks@.take(i + 1).last() == marks@[i as int]);
        }
        let ghost before = out@;
        if !marks[i] {
            out.push(Diagnostic::UnmatchedHighlight { bookmark_id, card: i });
            assert(out@ =~= head + unmatched(bookmark_id, marks@.take(i + 1)));
        }
        i += 1;
    }
    assert(marks@.take(marks.len() as int) == marks@);
    assert(out@ =~= diagnosis(bookmark_id, empty_extraction, marks@));
    out
}

/// Builds the cards of one article: takes the blocks that contain a
/// highlight fragment, or the fragments themselves where no block does,
/// marks the fragments in each and makes each a paragraph. Fails with
/// `MalformedUrl` exactly when the article's URL has no host, and with
/// `Pattern` exactly when it has one and the regex engine does not accept a
/// pattern that the article's cards need.
pub fn build_cards(article: &HighlightedArticle) -> (out: Result<CardReport, PipelineError>)
    ensures
        built(article@, out),
        article.article_items.len() == 0 ==> (out matches Ok(report) ==> report.card.cards.len()
            == article.raw_highlights.len()),
        article.raw_highlights.len() > 0 ==> (out matches Ok(report) ==> report.card.cards.len()
            > 0),
{
    let id = article.bookmark_id;
    let host = match parse_host(article.url.as_str()) {
        None => {
            return Err(PipelineError::MalformedUrl { bookmark_id: id });
        },
        Some(h) => h,
    };
    let flags = match match_flags(&article.article_items, &article.raw_highlights) {
        None => {
            return Err(PipelineError::Pattern { bookmark_id: id });
        },
        Some(f) => f,
    };
    let blocks = select_blocks(&article.article_items, &flags, &article.raw_highlights);
    assert(texts(blocks@) == card_blocks(article@));
    proof {
        lemma_no_fragments_no_blocks(article@);
        lemma_fallback(article@);
    }
    let mut cards: Vec<String> = Vec::new();
    let mut marks: Vec<bool> = Vec::new();
    let mut i: usize = 0;
    while i < blocks.len()
        invariant
            i <= blocks.len(),
            cards.len() == i,
            marks.len() == i,
            id == article.bookmark_id,
            url_host(article.url@) is Some,
            blocks.len() > 0 ==> article.raw_highlights.len() > 0,
            i > 0 ==> {
                &&& regex_accepted(PRESENTATIONAL_TAGS@)
                &&& fragments_accepted(texts(article.raw_highlights@))
                &&& regex_accepted(MARK_OPEN@)
                &&& finish_accepted()
            },
            forall|j: int|
                0 <= j < i ==> cards@[j]@ == card_text(blocks@[j]@, texts(article.raw_highlights@)),
            forall|j: int|
                0 <= j < i ==> marks@[j] == has_mark(blocks@[j]@, texts(article.raw_highlights@)),
        decreases blocks.len() - i,
    {
        let plain = match strip_tags(blocks[i].as_str()) {
            None => {
                return Err(PipelineError::Pattern { bookmark_id: id });
            },
            Some(s) => s,
        };
        let with_marks = match mark_block(plain.as_str(), &article.raw_highlights) {
            None => {
                return Err(PipelineError::Pattern { bookmark_id: id });
            },
            Some(s) => s,
        };
        let found = match is_match(MARK_OPEN, with_marks.as_str()) {
            None => {
                return Err(PipelineError::Pattern { bookmark_id: id });
            },
            Some(b) => b,
        };
        let card = match finish_card(with_marks.as_str()) {
            None => {
                return Err(PipelineError::Pattern { bookmark_id: id });
            },
            Some(s) => s,
        };
        cards.push(card);
        marks.push(found);
        i += 1;
    }
    assert(texts(cards@) =~= cards_of(article@));
    assert(marks@ =~= marks_of(article@));
    proof {
        lemma_fallback(article@);
    }
    let empty_extraction = article.article_items.len() == 0 && article.raw_highlights.len() > 0;
    let diagnostics = diagnose(id, empty_extraction, &marks);
    let card = ArticleCards {
        title: article.title.clone(),
        bookmark_id: id,
        url: article.url.clone(),
        domain: host,
        cards,
        ranking: 0,
    };
    Ok(CardReport { card, diagnostics })
}

/// Builds the cards of every article. An article whose cards cannot be
/// built is left out of the cards and gives its failure; the others are not
/// affected, and cards, remarks and failures come in the order of the
/// articles.
pub fn generate_articles(articles: &Vec<HighlightedArticle>) -> (run: Run)
    ensures
        corpus_view(run.cards@) == corpus_of(article_views(articles@)),
        run.diagnostics@ == remarks_of(article_views(articles@)),
        run.failures@ == failures_of(article_views(articles@)),
        run.cards.len() + run.failures.len() == articles.len(),
{
    let ghost views = article_views(articles@);
    let mut cards: Vec<ArticleCards> = Vec::new();
    let mut diagnostics: Vec<Diagnostic> = Vec::new();
    let mut failed: Vec<PipelineError> = Vec::new();
    let mut i: usize = 0;
    assert(views.take(0) =~= Seq::<HighlightedArticleView>::empty());
    assert(corpus_view(cards@) =~= corpus_of(views.take(0)));
    while i < articles.len()
        invariant
            i <= articles.len(),
            views == article_views(articles@),
            corpus_view(cards@) == corpus_of(views.take(i as int)),
            diagnostics@ == remarks_of(views.take(i as int)),
            failed@ == failures_of(views.take(i as int)),
            cards.len() + failed.len() == i,
        decreases articles.len() - i,
    {
        proof {
            assert(views.take(i + 1).drop_last() == views.take(i as int));
            assert(views.take(i + 1).last() == articles@[i as int]@);
        }
        let ghost before = corpus_view(cards@);
        match build_cards(&articles[i]) {
            Ok(report) => {
                let CardReport { card, diagnostics: mut remarks } = report;
                cards.push(card);
                diagnostics.append(&mut remarks);
                assert(corpus_view(cards@) =~= before.push(card_of(articles@[i as int]@)));
            },
            Err(e) => {
                failed.push(e);
            },
        }
        i += 1;
    }
    assert(views.take(articles.len() as int) == views);
    Run { cards, diagnostics, failures: failed }
}

} // verus!
