use vstd::prelude::*;
use crate::cards::corpus_view;
use crate::cards::ArticleCards;
use crate::cards::ArticleCardsView;
use crate::pattern::regex_accepted;
use crate::pattern::regex_replaced;
use crate::pattern::replace_all;
use crate::text::join;
use crate::text::joined;
use crate::text::split;
use crate::text::split_seq;
use crate::text::texts;
use crate::text::NOTHING;

verus! {

/// The most articles a token may occur in and still be indexed.
pub const THRESHOLD: usize = 100;

/// What is taken out of an article's text before it is cut into tokens:
/// presentational and structural tags, each with whatever attributes it has,
/// double spaces and question marks. A tag whose name only begins like one of
/// these is none of them.
pub const INDEX_NOISE: &'static str =
    r"</?(em|strong|span|figure|figcaption|font|picture|li|h1|h2|h3|h4|p|mark|i|b)(\s[^>]*)?/?>|  |\?";

pub const SPACE: &'static str = " ";

/// The text in lower case, as the standard library maps it.
pub uninterp spec fn lowercased(text: Seq<char>) -> Seq<char>;

/// The characters at which a text is cut into tokens.
pub open spec fn token_separators() -> Seq<char> {
    seq![
        ':',
        '-',
        ' ',
        ')',
        '(',
        '\u{2013}',
        '.',
        '\\',
        ',',
        '\u{201d}',
        '\u{201c}',
        '\u{2019}',
        '"',
        '\u{2014}',
        ';',
        '/',
    ]
}

/// One article as the indexer sees it: its bookmark id and its tokens.
#[derive(Debug, Clone, Default, PartialEq, Eq)]
pub struct Document {
    pub bookmark_id: i64,
    pub tokens: Vec<String>,
}

/// A `Document` as plain mathematical data.
pub struct DocumentView {
    pub bookmark_id: i64,
    pub tokens: Seq<Seq<char>>,
}

impl View for Document {
    type V = DocumentView;

    open spec fn view(&self) -> DocumentView {
        DocumentView { bookmark_id: self.bookmark_id, tokens: texts(self.tokens@) }
    }
}

/// The views of a list of documents.
pub open spec fn document_views(docs: Seq<Document>) -> Seq<DocumentView> {
    Seq::new(docs.len(), |i: int| docs[i]@)
}

/// One token of the index with the bookmark ids of the articles that hold
/// it.
#[derive(Debug, Clone, Default, PartialEq, Eq)]
pub struct IndexEntry {
    pub token: String,
    pub ids: Vec<i64>,
}

/// The search index: for each token the set of bookmark ids of the articles
/// that hold it. No token stands twice, no id stands twice under a token, and
/// no token stands without an id.
pub struct SearchIndex {
    entries: Vec<IndexEntry>,
}

/// The text of an article that is indexed: its cards with a space between
/// them, then its title and its domain.
pub open spec fn indexed_text(a: ArticleCardsView) -> Seq<char> {
    joined(a.cards, SPACE@) + a.title + a.domain
}

/// The indexed text without noise.
pub open spec fn clean_text(a: ArticleCardsView) -> Seq<char> {
    regex_replaced(INDEX_NOISE@, indexed_text(a), NOTHING@)
}

/// The tokens of a text that is free of noise: the text in lower case, cut
/// at every separator.
pub open spec fn cut(clean: Seq<char>) -> Seq<Seq<char>> {
    split_seq(lowercased(clean), token_separators().to_set())
}

/// The tokens of an article, in the order of the text.
pub open spec fn tokens_of(a: ArticleCardsView) -> Seq<Seq<char>> {
    cut(clean_text(a))
}

/// An article as the indexer sees it.
pub open spec fn document_of(a: ArticleCardsView) -> DocumentView {
    DocumentView { bookmark_id: a.bookmark_id, tokens: tokens_of(a) }
}

/// The corpus as the indexer sees it.
pub open spec fn documents_of(articles: Seq<ArticleCardsView>) -> Seq<DocumentView> {
    Seq::new(articles.len(), |i: int| document_of(articles[i]))
}

/// Whether some document holds the token.
pub open spec fn occurs(docs: Seq<DocumentView>, token: Seq<char>) -> bool {
    exists|k: int| 0 <= k < docs.len() && (#[trigger] docs[k]).tokens.contains(token)
}

/// The bookmark ids of the documents that hold the token.
pub open spec fn postings(docs: Seq<DocumentView>, token: Seq<char>) -> Set<i64> {
    Set::new(
        |id: i64|
            exists|k: int|
                0 <= k < docs.len() && (#[trigger] docs[k]).bookmark_id == id
                    && docs[k].tokens.contains(token),
    )
}

/// The index of a list of documents: every token that occurs, and occurs
/// under no more than `THRESHOLD` different bookmark ids, with those ids.
pub open spec fn index_of(docs: Seq<DocumentView>) -> Map<Seq<char>, Set<i64>> {
    Map::new(
        |token: Seq<char>| occurs(docs, token) && postings(docs, token).len() <= THRESHOLD,
        |token: Seq<char>| postings(docs, token),
    )
}

/// Whether some entry holds the token.
pub open spec fn has_token(entries: Seq<IndexEntry>, token: Seq<char>) -> bool {
    exists|i: int| 0 <= i < entries.len() && (#[trigger] entries[i]).token@ == token
}

/// The place of an entry that holds the token.
pub open spec fn entry_index(entries: Seq<IndexEntry>, token: Seq<char>) -> int {
    choose|i: int| 0 <= i < entries.len() && (#[trigger] entries[i]).token@ == token
}

/// The ids that the entries give for the token; none where no entry holds
/// it.
pub open spec fn posting_of(entries: Seq<IndexEntry>, token: Seq<char>) -> Set<i64> {
    if has_token(entries, token) {
        entries[entry_index(entries, token)].ids@.to_set()
    } else {
        Set::<i64>::empty()
    }
}

/// The map that a list of entries stands for.
pub open spec fn entries_map(entries: Seq<IndexEntry>) -> Map<Seq<char>, Set<i64>> {
    Map::new(|token: Seq<char>| has_token(entries, token), |token: Seq<char>| posting_of(entries, token))
}

/// No token stands twice, no id stands twice under a token, and no token
/// stands without an id.
pub open spec fn entries_wf(entries: Seq<IndexEntry>) -> bool {
    &&& forall|i: int, j: int|
        0 <= i < j < entries.len() ==> (#[trigger] entries[i]).token@ != (#[trigger] entries[j]).token@
    &&& forall|i: int|
        0 <= i < entries.len() ==> (#[trigger] entries[i]).ids@.no_duplicates()
            && entries[i].ids@.len() > 0
}

/// Whether `e` stands in `entries` at place `from` or behind it.
spec fn stands_behind(entries: Seq<IndexEntry>, from: int, e: IndexEntry) -> bool {
    exists|x: int| from <= x < entries.len() && (#[trigger] entries[x]) == e
}

/// The ids under which a token occurs are among the ids of the documents, so
/// there are finitely many and no more than there are documents.
pub proof fn lemma_postings_finite(docs: Seq<DocumentView>, token: Seq<char>)
    ensures
        postings(docs, token).finite(),
        postings(docs, token).len() <= docs.len(),
        occurs(docs, token) <==> postings(docs, token).len() > 0,
{
    let ids = Seq::new(docs.len(), |k: int| docs[k].bookmark_id);
    vstd::seq_lib::seq_to_set_is_finite(ids);
    assert(postings(docs, token).subset_of(ids.to_set())) by {
        assert forall|id: i64| postings(docs, token).contains(id) implies ids.to_set().contains(
            id,
        ) by {
            let k = choose|k: int|
                0 <= k < docs.len() && (#[trigger] docs[k]).bookmark_id == id
                    && docs[k].tokens.contains(token);
            assert(ids[k] == id);
        }
    }
    vstd::set_lib::lemma_len_subset(postings(docs, token), ids.to_set());
    ids.lemma_cardinality_of_set();
    if occurs(docs, token) {
        let k = choose|k: int| 0 <= k < docs.len() && (#[trigger] docs[k]).tokens.contains(token);
        assert(postings(docs, token).contains(docs[k].bookmark_id));
        if postings(docs, token).len() == 0 {
            postings(docs, token).lemma_len0_is_empty();
        }
    } else {
        assert(postings(docs, token) =~= Set::<i64>::empty());
    }
}

/// A token that occurs under more than `THRESHOLD` different bookmark ids
/// is not in the index. A token that occurs under no more than that is in
/// it, with exactly those ids. No token of the index stands without an id.
pub proof fn lemma_index_threshold(docs: Seq<DocumentView>, token: Seq<char>)
    ensures
        postings(docs, token).len() > THRESHOLD ==> !index_of(docs).contains_key(token),
        0 < postings(docs, token).len() <= THRESHOLD ==> index_of(docs).contains_key(token)
            && index_of(docs)[token] == postings(docs, token),
        index_of(docs).contains_key(token) ==> index_of(docs)[token].len() > 0,
{
    lemma_postings_finite(docs, token);
}

/// The index does not depend on the order of the documents, nor on how often
/// a document stands in the list: two lists that hold the same documents have
/// the same index.
pub proof fn lemma_index_ignores_order(first: Seq<DocumentView>, second: Seq<DocumentView>)
    requires
        forall|d: DocumentView| first.contains(d) <==> second.contains(d),
    ensures
        index_of(first) == index_of(second),
{
    assert forall|t: Seq<char>| #[trigger] postings(first, t) == postings(second, t) by {
        lemma_same_documents(first, second, t);
        lemma_same_documents(second, first, t);
        assert(postings(first, t) =~= postings(second, t));
    }
    assert forall|t: Seq<char>| occurs(first, t) == occurs(second, t) by {
        lemma_postings_finite(first, t);
        lemma_postings_finite(second, t);
        assert(postings(first, t) == postings(second, t));
    }
    assert(index_of(first) =~= index_of(second)) by {
        assert forall|t: Seq<char>| index_of(first).contains_key(t) == index_of(
            second,
        ).contains_key(t) by {
            assert(postings(first, t) == postings(second, t));
        }
        assert forall|t: Seq<char>| index_of(first).contains_key(t) implies index_of(first)[t]
            == index_of(second)[t] by {
            assert(postings(first, t) == postings(second, t));
        }
    }
}

proof fn lemma_same_documents(first: Seq<DocumentView>, second: Seq<DocumentView>, token: Seq<char>)
    requires
        forall|d: DocumentView| first.contains(d) ==> second.contains(d),
    ensures
        postings(first, token).subset_of(postings(second, token)),
{
    assert forall|id: i64| postings(first, token).contains(id) implies postings(
        second,
        token,
    ).contains(id) by {
        let k = choose|k: int|
            0 <= k < first.len() && (#[trigger] first[k]).bookmark_id == id
                && first[k].tokens.contains(token);
        assert(first.contains(first[k]));
        let d = first[k];
        assert(second.contains(d));
        let j = choose|j: int| 0 <= j < second.len() && second[j] == d;
        assert(second[j].bookmark_id == id && second[j].tokens.contains(token));
    }
}

/// With one more document, a token's ids are those it had, and the new
/// document's id where that document holds the token.
proof fn lemma_postings_step(docs: Seq<DocumentView>, k: int, token: Seq<char>)
    requires
        0 <= k < docs.len(),
    ensures
        postings(docs.take(k + 1), token) == if docs[k].tokens.contains(token) {
            postings(docs.take(k), token).insert(docs[k].bookmark_id)
        } else {
            postings(docs.take(k), token)
        },
{
    let more = docs.take(k + 1);
    let less = docs.take(k);
    let expected = if docs[k].tokens.contains(token) {
        postings(less, token).insert(docs[k].bookmark_id)
    } else {
        postings(less, token)
    };
    assert forall|id: i64| postings(more, token).contains(id) implies expected.contains(id) by {
        let j = choose|j: int|
            0 <= j < more.len() && (#[trigger] more[j]).bookmark_id == id && more[j].tokens.contains(
                token,
            );
        if j < k {
            assert(less[j] == more[j]);
        }
    }
    assert forall|id: i64| expected.contains(id) implies postings(more, token).contains(id) by {
        if postings(less, token).contains(id) {
            let j = choose|j: int|
                0 <= j < less.len() && (#[trigger] less[j]).bookmark_id == id
                    && less[j].tokens.contains(token);
            assert(more[j] == less[j]);
        } else {
            assert(more[k] == docs[k]);
        }
    }
    assert(postings(more, token) =~= expected);
}

/// In a well-formed list, the entry at a place is the one that its token
/// finds.
proof fn lemma_entry_at(entries: Seq<IndexEntry>, i: int)
    requires
        entries_wf(entries),
        0 <= i < entries.len(),
    ensures
        has_token(entries, entries[i].token@),
        entry_index(entries, entries[i].token@) == i,
        posting_of(entries, entries[i].token@) == entries[i].ids@.to_set(),
{
    let t = entries[i].token@;
    assert(has_token(entries, t));
    let j = entry_index(entries, t);
    assert(0 <= j < entries.len() && entries[j].token@ == t);
    if j < i {
        assert(entries[j].token@ != entries[i].token@);
    } else if i < j {
        assert(entries[i].token@ != entries[j].token@);
    }
}

/// What a new entry at the end does to the ids of every token.
proof fn lemma_push_entry(entries: Seq<IndexEntry>, e: IndexEntry)
    requires
        entries_wf(entries),
        !has_token(entries, e.token@),
        e.ids@.no_duplicates(),
        e.ids@.len() > 0,
    ensures
        entries_wf(entries.push(e)),
        forall|t: Seq<char>|
            has_token(entries.push(e), t) <==> (has_token(entries, t) || t == e.token@),
        forall|t: Seq<char>| #[trigger]
            posting_of(entries.push(e), t) == if t == e.token@ {
                e.ids@.to_set()
            } else {
                posting_of(entries, t)
            },
{
    let after = entries.push(e);
    assert(entries_wf(after)) by {
        assert forall|i: int, j: int| 0 <= i < j < after.len() implies (#[trigger] after[i]).token@
            != (#[trigger] after[j]).token@ by {
            if j == entries.len() {
                assert(after[i] == entries[i]);
            } else {
                assert(after[i] == entries[i] && after[j] == entries[j]);
            }
        }
        assert forall|i: int| 0 <= i < after.len() implies (#[trigger] after[i]).ids@.no_duplicates()
            && after[i].ids@.len() > 0 by {
            if i < entries.len() {
                assert(after[i] == entries[i]);
            }
        }
    }
    assert forall|t: Seq<char>|
        has_token(after, t) <==> (has_token(entries, t) || t == e.token@) by {
        if has_token(entries, t) {
            let i = entry_index(entries, t);
            assert(after[i] == entries[i]);
        }
        if t == e.token@ {
            assert(after[entries.len() as int] == e);
        }
        if has_token(after, t) {
            let i = entry_index(after, t);
            if i < entries.len() {
                assert(after[i] == entries[i]);
            }
        }
    }
    assert forall|t: Seq<char>| #[trigger]
        posting_of(after, t) == if t == e.token@ {
            e.ids@.to_set()
        } else {
            posting_of(entries, t)
        } by {
        if t == e.token@ {
            assert(after[entries.len() as int] == e);
            lemma_entry_at(after, entries.len() as int);
        } else if has_token(entries, t) {
            let i = entry_index(entries, t);
            assert(after[i] == entries[i]);
            lemma_entry_at(after, i);
        }
    }
}

/// What one more id under the token at place `a` does to the ids of every
/// token.
proof fn lemma_grow_entry(entries: Seq<IndexEntry>, after: Seq<IndexEntry>, a: int, id: i64)
    requires
        entries_wf(entries),
        0 <= a < entries.len(),
        !entries[a].ids@.contains(id),
        after.len() == entries.len(),
        forall|i: int| 0 <= i < entries.len() && i != a ==> after[i] == entries[i],
        after[a].token@ == entries[a].token@,
        after[a].ids@ == entries[a].ids@.push(id),
    ensures
        entries_wf(after),
        forall|t: Seq<char>| has_token(after, t) <==> has_token(entries, t),
        forall|t: Seq<char>| #[trigger]
            posting_of(after, t) == if t == entries[a].token@ {
                posting_of(entries, t).insert(id)
            } else {
                posting_of(entries, t)
            },
{
    assert(entries_wf(after)) by {
        assert forall|i: int, j: int| 0 <= i < j < after.len() implies (#[trigger] after[i]).token@
            != (#[trigger] after[j]).token@ by {
            assert(after[i].token@ == entries[i].token@);
            assert(after[j].token@ == entries[j].token@);
        }
        assert forall|i: int| 0 <= i < after.len() implies (#[trigger] after[i]).ids@.no_duplicates()
            && after[i].ids@.len() > 0 by {
            if i != a {
                assert(after[i] == entries[i]);
            } else {
                assert(entries[a].ids@.no_duplicates());
                assert forall|x: int, y: int|
                    0 <= x < after[a].ids@.len() && 0 <= y < after[a].ids@.len() && x != y implies after[a].ids@[x]
                    != after[a].ids@[y] by {
                    if x == entries[a].ids@.len() {
                        assert(entries[a].ids@[y] != id);
                    } else if y == entries[a].ids@.len() {
                        assert(entries[a].ids@[x] != id);
                    }
                }
            }
        }
    }
    assert forall|t: Seq<char>| has_token(after, t) <==> has_token(entries, t) by {
        if has_token(entries, t) {
            let i = entry_index(entries, t);
            assert(after[i].token@ == entries[i].token@);
        }
        if has_token(after, t) {
            let i = entry_index(after, t);
            assert(after[i].token@ == entries[i].token@);
        }
    }
    assert forall|t: Seq<char>| #[trigger]
        posting_of(after, t) == if t == entries[a].token@ {
            posting_of(entries, t).insert(id)
        } else {
            posting_of(entries, t)
        } by {
        if has_token(entries, t) {
            let i = entry_index(entries, t);
            assert(after[i].token@ == entries[i].token@);
            lemma_entry_at(entries, i);
            lemma_entry_at(after, i);
            if i == a {
                assert(entries[a].ids@.push(id).to_set() =~= entries[a].ids@.to_set().insert(id)) by {
                    let s = entries[a].ids@;
                    assert forall|x: i64| s.push(id).to_set().contains(x) implies s.to_set().insert(
                        id,
                    ).contains(x) by {
                        let k = choose|k: int| 0 <= k < s.push(id).len() && s.push(id)[k] == x;
                        if k < s.len() {
                            assert(s[k] == x);
                        }
                    }
                    assert forall|x: i64| s.to_set().insert(id).contains(x) implies s.push(
                        id,
                    ).to_set().contains(x) by {
                        if x == id {
                            assert(s.push(id)[s.len() as int] == x);
                        } else {
                            let k = choose|k: int| 0 <= k < s.len() && s[k] == x;
                            assert(s.push(id)[k] == x);
                        }
                    }
                }
            } else {
                if t == entries[a].token@ {
                    lemma_entry_at(entries, a);
                }
            }
        } else {
            assert(t != entries[a].token@);
        }
    }
}

/// `str::to_lowercase` of the standard library: the text in lower case. The
/// mapping takes pages to state and depends on the text alone.
#[verifier::external_body]
fn lowercase(text: &str) -> (out: String)
    ensures
        out@ == lowercased(text@),
{
    text.to_lowercase()
}

/// The characters at which a text is cut into tokens.
pub fn separators() -> (seps: Vec<char>)
    ensures
        seps@ == token_separators(),
{
    let seps = vec![
        ':',
        '-',
        ' ',
        ')',
        '(',
        '\u{2013}',
        '.',
        '\\',
        ',',
        '\u{201d}',
        '\u{201c}',
        '\u{2019}',
        '"',
        '\u{2014}',
        ';',
        '/',
    ];
    assert(seps@ =~= token_separators());
    seps
}

/// The tokens of an article. `None` exactly when the regex engine does not
/// accept the pattern of the noise.
pub fn article_tokens(article: &ArticleCards) -> (out: Option<Vec<String>>)
    ensures
        out is Some <==> regex_accepted(INDEX_NOISE@),
        out matches Some(tokens) ==> texts(tokens@) == tokens_of(article@),
{
    let text = index_text(article);
    match replace_all(INDEX_NOISE, text.as_str(), NOTHING) {
        None => None,
        Some(clean) => Some(cut_tokens(clean.as_str())),
    }
}

/// The text of an article that is indexed: its cards with a space between
/// them, then its title and its domain.
pub fn index_text(article: &ArticleCards) -> (text: String)
    ensures
        text@ == indexed_text(article@),
{
    let mut text = join(&article.cards, SPACE);
    text.append(article.title.as_str());
    text.append(article.domain.as_str());
    text
}

/// The tokens of a text that is free of noise: the text in lower case, cut
/// at every separator.
pub fn cut_tokens(clean: &str) -> (tokens: Vec<String>)
    ensures
        texts(tokens@) == cut(clean@),
{
    let lower = lowercase(clean);
    let seps = separators();
    split(lower.as_str(), &seps)
}

/// The place of the entry that holds the token, if there is one.
fn find_entry(entries: &Vec<IndexEntry>, token: &str) -> (place: Option<usize>)
    ensures
        match place {
            Some(i) => i < entries.len() && entries@[i as int].token@ == token@,
            None => !has_token(entries@, token@),
        },
{
    let wanted = String::from_str(token);
    let mut i: usize = 0;
    while i < entries.len()
        invariant
            i <= entries.len(),
            wanted@ == token@,
            forall|j: int| 0 <= j < i ==> (#[trigger] entries@[j]).token@ != token@,
        decreases entries.len() - i,
    {
        if entries[i].token == wanted {
            return Some(i);
        }
        i += 1;
    }
    None
}

/// Whether `id` is among `ids`.
fn contains_id(ids: &Vec<i64>, id: i64) -> (found: bool)
    ensures
        found == ids@.contains(id),
{
    let mut i: usize = 0;
    while i < ids.len()
        invariant
            i <= ids.len(),
            forall|j: int| 0 <= j < i ==> ids@[j] != id,
        decreases ids.len() - i,
    {
        if ids[i] == id {
            return true;
        }
        i += 1;
    }
    false
}

/// Puts `id` under `token`.
fn add_posting(entries: &mut Vec<IndexEntry>, token: &str, id: i64)
    requires
        entries_wf(old(entries)@),
    ensures
        entries_wf(final(entries)@),
        forall|t: Seq<char>| #[trigger]
            posting_of(final(entries)@, t) == if t == token@ {
                posting_of(old(entries)@, t).insert(id)
            } else {
                posting_of(old(entries)@, t)
            },
{
    let ghost before = entries@;
    match find_entry(entries, token) {
        Some(a) => {
            proof {
                lemma_entry_at(before, a as int);
            }
            if !contains_id(&entries[a].ids, id) {
                entries[a].ids.push(id);
                proof {
                    lemma_grow_entry(before, entries@, a as int, id);
                }
            } else {
                assert(posting_of(before, token@).insert(id) =~= posting_of(before, token@));
            }
        },
        None => {
            let mut ids: Vec<i64> = Vec::new();
            ids.push(id);
            let e = IndexEntry { token: String::from_str(token), ids };
            proof {
                lemma_push_entry(before, e);
                assert(e.ids@.to_set() =~= Set::<i64>::empty().insert(id)) by {
                    assert(e.ids@[0] == id);
                }
            }
            entries.push(e);
        },
    }
}

impl View for SearchIndex {
    type V = Map<Seq<char>, Set<i64>>;

    closed spec fn view(&self) -> Map<Seq<char>, Set<i64>> {
        entries_map(self.entries@)
    }
}

impl SearchIndex {
    #[verifier::type_invariant]
    spec fn well_formed(self) -> bool {
        entries_wf(self.entries@)
    }

    /// The entries of the index, one for each token.
    pub fn entries(&self) -> (entries: &Vec<IndexEntry>)
        ensures
            entries_wf(entries@),
            entries_map(entries@) == self@,
    {
        proof {
            use_type_invariant(self);
        }
        &self.entries
    }

    /// The bookmark ids under `token`, each once, if the index holds the
    /// token.
    pub fn lookup(&self, token: &str) -> (ids: Option<Vec<i64>>)
        ensures
            match ids {
                Some(v) => self@.contains_key(token@) && v@.to_set() == self@[token@]
                    && v@.no_duplicates() && v@.len() == self@[token@].len(),
                None => !self@.contains_key(token@),
            },
    {
        proof {
            use_type_invariant(self);
        }
        match find_entry(&self.entries, token) {
            None => None,
            Some(a) => {
                let found = &self.entries[a].ids;
                let mut out: Vec<i64> = Vec::new();
                let mut i: usize = 0;
                while i < found.len()
                    invariant
                        i <= found.len(),
                        out@ == found@.take(i as int),
                    decreases found.len() - i,
                {
                    out.push(found[i]);
                    assert(found@.take(i + 1) =~= found@.take(i as int).push(found@[i as int]));
                    i += 1;
                }
                proof {
                    assert(found@.take(found.len() as int) == found@);
                    lemma_entry_at(self.entries@, a as int);
                    found@.unique_seq_to_set();
                }
                Some(out)
            },
        }
    }

    /// How many tokens the index holds.
    pub fn len(&self) -> (n: usize)
        ensures
            self@.dom().finite(),
            n == self@.dom().len(),
    {
        proof {
            use_type_invariant(self);
            let entries = self.entries@;
            let tokens = Seq::new(entries.len(), |i: int| entries[i].token@);
            assert(tokens.no_duplicates()) by {
                assert forall|i: int, j: int|
                    0 <= i < tokens.len() && 0 <= j < tokens.len() && i != j implies tokens[i]
                    != tokens[j] by {
                    if i < j {
                        assert(entries[i].token@ != entries[j].token@);
                    } else {
                        assert(entries[j].token@ != entries[i].token@);
                    }
                }
            }
            assert(tokens.to_set() =~= self@.dom()) by {
                assert forall|t: Seq<char>| tokens.to_set().contains(t) implies self@.dom().contains(
                    t,
                ) by {
                    let i = choose|i: int| 0 <= i < tokens.len() && tokens[i] == t;
                    assert(entries[i].token@ == t);
                }
                assert forall|t: Seq<char>| self@.dom().contains(t) implies tokens.to_set().contains(
                    t,
                ) by {
                    let i = entry_index(entries, t);
                    assert(tokens[i] == t);
                }
            }
            vstd::seq_lib::seq_to_set_is_finite(tokens);
            tokens.unique_seq_to_set();
        }
        self.entries.len()
    }
}

/// The index of a list of documents.
pub fn index_documents(docs: &Vec<Document>) -> (index: SearchIndex)
    ensures
        index@ == index_of(document_views(docs@)),
{
    let ghost views = document_views(docs@);
    let mut entries: Vec<IndexEntry> = Vec::new();
    let mut k: usize = 0;
    assert forall|t: Seq<char>| #[trigger] posting_of(entries@, t) =~= postings(views.take(0), t) by {}
    while k < docs.len()
        invariant
            k <= docs.len(),
            views == document_views(docs@),
            entries_wf(entries@),
            forall|t: Seq<char>| #[trigger] posting_of(entries@, t) == postings(views.take(k as int), t),
        decreases docs.len() - k,
    {
        let doc = &docs[k];
        let id = doc.bookmark_id;
        let mut j: usize = 0;
        assert(views[k as int] == doc@);
        assert(texts(doc.tokens@).take(0) =~= Seq::<Seq<char>>::empty());
        while j < doc.tokens.len()
            invariant
                j <= doc.tokens.len(),
                k < docs.len(),
                views == document_views(docs@),
                views[k as int] == doc@,
                id == doc.bookmark_id,
                entries_wf(entries@),
                forall|t: Seq<char>| #[trigger]
                    posting_of(entries@, t) == if texts(doc.tokens@).take(j as int).contains(t) {
                        postings(views.take(k as int), t).insert(id)
                    } else {
                        postings(views.take(k as int), t)
                    },
            decreases doc.tokens.len() - j,
        {
            let ghost before = entries@;
            add_posting(&mut entries, doc.tokens[j].as_str(), id);
            proof {
                let toks = texts(doc.tokens@);
                let tok = doc.tokens@[j as int]@;
                assert(toks.take(j + 1) =~= toks.take(j as int).push(tok));
                assert forall|t: Seq<char>| #[trigger]
                    posting_of(entries@, t) == if toks.take(j + 1).contains(t) {
                        postings(views.take(k as int), t).insert(id)
                    } else {
                        postings(views.take(k as int), t)
                    } by {
                    let prev = posting_of(before, t);
                    let shorter = toks.take(j as int);
                    let longer = toks.take(j + 1);
                    if t == tok {
                        assert(longer[j as int] == t);
                        assert(prev.insert(id) =~= postings(views.take(k as int), t).insert(id));
                    } else {
                        if shorter.contains(t) {
                            let x = choose|x: int| 0 <= x < shorter.len() && shorter[x] == t;
                            assert(longer[x] == t);
                        }
                        if longer.contains(t) {
                            let x = choose|x: int| 0 <= x < longer.len() && longer[x] == t;
                            assert(shorter[x] == t);
                        }
                    }
                }
            }
            j += 1;
        }
        proof {
            assert(texts(doc.tokens@).take(doc.tokens.len() as int) == texts(doc.tokens@));
            assert forall|t: Seq<char>| #[trigger]
                posting_of(entries@, t) == postings(views.take(k + 1), t) by {
                lemma_postings_step(views, k as int, t);
            }
        }
        k += 1;
    }
    assert(views.take(docs.len() as int) == views);
    let ghost full = entries@;
    let mut kept: Vec<IndexEntry> = Vec::new();
    while entries.len() > 0
        invariant
            entries.len() <= full.len(),
            entries@ == full.take(entries.len() as int),
            entries_wf(full),
            entries_wf(kept@),
            forall|i: int|
                0 <= i < kept.len() ==> stands_behind(full, entries.len() as int, #[trigger] kept@[i]),
            forall|x: int|
                entries.len() <= x < full.len() && (#[trigger] full[x]).ids@.len() <= THRESHOLD
                    ==> has_token(kept@, full[x].token@),
            forall|i: int| 0 <= i < kept.len() ==> (#[trigger] kept@[i]).ids@.len() <= THRESHOLD,
        decreases entries.len(),
    {
        let ghost m = entries.len() - 1;
        let ghost old_kept = kept@;
        let e = entries.pop().unwrap();
        assert(e == full[m]);
        assert(entries@ =~= full.take(m));
        assert forall|i: int| 0 <= i < old_kept.len() implies stands_behind(
            full,
            m,
            #[trigger] old_kept[i],
        ) by {
            assert(stands_behind(full, m + 1, old_kept[i]));
            let x = choose|x: int| m + 1 <= x < full.len() && (#[trigger] full[x]) == old_kept[i];
            assert(full[x] == old_kept[i]);
        }
        if e.ids.len() <= THRESHOLD {
            proof {
                if has_token(old_kept, e.token@) {
                    let i = entry_index(old_kept, e.token@);
                    assert(stands_behind(full, m + 1, old_kept[i]));
                    let x = choose|x: int|
                        m + 1 <= x < full.len() && (#[trigger] full[x]) == old_kept[i];
                    assert(full[m].token@ != full[x].token@);
                }
                lemma_push_entry(old_kept, e);
            }
            kept.push(e);
            proof {
                assert forall|i: int| 0 <= i < kept.len() implies stands_behind(
                    full,
                    m,
                    #[trigger] kept@[i],
                ) by {
                    if i < old_kept.len() {
                        assert(kept@[i] == old_kept[i]);
                    } else {
                        assert(full[m] == kept@[i]);
                    }
                }
            }
        }
    }
    proof {
        assert forall|t: Seq<char>| #[trigger]
            has_token(kept@, t) <==> (occurs(views, t) && postings(views, t).len() <= THRESHOLD) by {
            lemma_postings_finite(views, t);
            if has_token(kept@, t) {
                let i = entry_index(kept@, t);
                assert(stands_behind(full, 0, kept@[i]));
                let x = choose|x: int| 0 <= x < full.len() && (#[trigger] full[x]) == kept@[i];
                lemma_entry_at(full, x);
                full[x].ids@.unique_seq_to_set();
            }
            if has_token(full, t) {
                let x = entry_index(full, t);
                lemma_entry_at(full, x);
                full[x].ids@.unique_seq_to_set();
            } else {
                assert(posting_of(full, t) =~= Set::<i64>::empty());
            }
        }
        assert forall|t: Seq<char>| has_token(kept@, t) implies #[trigger] posting_of(kept@, t)
            == postings(views, t) by {
            let i = entry_index(kept@, t);
            assert(stands_behind(full, 0, kept@[i]));
            let x = choose|x: int| 0 <= x < full.len() && (#[trigger] full[x]) == kept@[i];
            lemma_entry_at(full, x);
            lemma_entry_at(kept@, i);
        }
        assert(entries_map(kept@) =~= index_of(views));
    }
    SearchIndex { entries: kept }
}

/// The search index of a corpus: every token of the corpus that occurs in
/// no more than `THRESHOLD` different articles, with the bookmark ids of the
/// articles that hold it. `None` exactly when the corpus has an article and
/// the regex engine does not accept the pattern of the noise.
pub fn generate_search_index(articles: &Vec<ArticleCards>) -> (out: Option<SearchIndex>)
    ensures
        out is Some <==> articles.len() == 0 || regex_accepted(INDEX_NOISE@),
        out matches Some(index) ==> index@ == index_of(documents_of(corpus_view(articles@))),
{
    let mut docs: Vec<Document> = Vec::new();
    let mut i: usize = 0;
    while i < articles.len()
        invariant
            i <= articles.len(),
            docs.len() == i,
            i > 0 ==> regex_accepted(INDEX_NOISE@),
            forall|j: int| 0 <= j < i ==> docs@[j]@ == document_of(articles@[j]@),
        decreases articles.len() - i,
    {
        match article_tokens(&articles[i]) {
            None => {
                return None;
            },
            Some(tokens) => {
                docs.push(Document { bookmark_id: articles[i].bookmark_id, tokens });
            },
        }
        i += 1;
    }
    assert(document_views(docs@) =~= documents_of(corpus_view(articles@)));
    Some(index_documents(&docs))
}

} // verus!
