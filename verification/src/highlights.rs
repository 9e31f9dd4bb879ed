use vstd::prelude::*;
use std::collections::HashMap;
use crate::error::PipelineError;
use crate::extract::article_items;
use crate::extract::blocks_of;
use crate::extract::extraction_accepted;
use crate::insta_client::Article;
use crate::insta_client::Bookmark;
use crate::insta_client::Highlight;
use crate::insta_client::List;
use crate::text::clone_strings;
use crate::text::split;
use crate::text::split_seq;
use crate::text::texts;

verus! {

/// A fragment is kept only if it has more characters than this.
pub const SHORTEST_FRAGMENT: usize = 15;

/// One article with all that the matcher needs: the bookmark's title and
/// URL, the article's highlight fragments and its extracted blocks.
#[derive(Debug, Clone, Default, PartialEq, Eq)]
pub struct HighlightedArticle {
    pub title: String,
    pub bookmark_id: i64,
    pub url: String,
    pub raw_highlights: Vec<String>,
    pub article_items: Vec<String>,
}

/// A `HighlightedArticle` as plain mathematical data.
pub struct HighlightedArticleView {
    pub title: Seq<char>,
    pub bookmark_id: i64,
    pub url: Seq<char>,
    pub raw_highlights: Seq<Seq<char>>,
    pub article_items: Seq<Seq<char>>,
}

impl View for HighlightedArticle {
    type V = HighlightedArticleView;

    open spec fn view(&self) -> HighlightedArticleView {
        HighlightedArticleView {
            title: self.title@,
            bookmark_id: self.bookmark_id,
            url: self.url@,
            raw_highlights: texts(self.raw_highlights@),
            article_items: texts(self.article_items@),
        }
    }
}

/// The views of a list of articles.
pub open spec fn article_views(articles: Seq<HighlightedArticle>) -> Seq<HighlightedArticleView> {
    Seq::new(articles.len(), |i: int| articles[i]@)
}

/// The articles that could be put together, and one failure for each that
/// could not.
#[derive(Debug, Clone, Default, PartialEq, Eq)]
pub struct Joined {
    pub articles: Vec<HighlightedArticle>,
    pub failures: Vec<PipelineError>,
}

/// The characters that end a line.
pub open spec fn line_breaks() -> Seq<char> {
    seq!['\n']
}

/// The pieces with more than `SHORTEST_FRAGMENT` characters, in order.
pub open spec fn long_enough(pieces: Seq<Seq<char>>) -> Seq<Seq<char>>
    decreases pieces.len(),
{
    if pieces.len() == 0 {
        Seq::<Seq<char>>::empty()
    } else if pieces.last().len() > SHORTEST_FRAGMENT {
        long_enough(pieces.drop_last()).push(pieces.last())
    } else {
        long_enough(pieces.drop_last())
    }
}

/// The fragments of a highlight: its lines, without those of
/// `SHORTEST_FRAGMENT` characters or fewer.
pub open spec fn fragments_of(text: Seq<char>) -> Seq<Seq<char>> {
    long_enough(split_seq(text, line_breaks().to_set()))
}

/// Whether some highlight belongs to the bookmark.
pub open spec fn has_highlight(highlights: Seq<Highlight>, bookmark_id: i64) -> bool {
    exists|i: int| 0 <= i < highlights.len() && (#[trigger] highlights[i]).bookmark_id == bookmark_id
}

/// The fragments of the highlights that belong to the bookmark, in the order
/// of the highlights.
pub open spec fn collected(highlights: Seq<Highlight>, bookmark_id: i64) -> Seq<Seq<char>>
    decreases highlights.len(),
{
    if highlights.len() == 0 {
        Seq::<Seq<char>>::empty()
    } else if highlights.last().bookmark_id == bookmark_id {
        collected(highlights.drop_last(), bookmark_id) + fragments_of(highlights.last().text@)
    } else {
        collected(highlights.drop_last(), bookmark_id)
    }
}

/// The bookmark ids of the highlights, each once, in the order in which
/// they first occur.
pub open spec fn distinct_ids(highlights: Seq<Highlight>) -> Seq<i64>
    decreases highlights.len(),
{
    if highlights.len() == 0 {
        Seq::<i64>::empty()
    } else if distinct_ids(highlights.drop_last()).contains(highlights.last().bookmark_id) {
        distinct_ids(highlights.drop_last())
    } else {
        distinct_ids(highlights.drop_last()).push(highlights.last().bookmark_id)
    }
}

/// Whether `place` is where the first bookmark with the id stands.
pub open spec fn is_first_bookmark(bookmarks: Seq<Bookmark>, bookmark_id: i64, place: int) -> bool {
    &&& 0 <= place < bookmarks.len()
    &&& bookmarks[place].bookmark_id == bookmark_id
    &&& forall|j: int| 0 <= j < place ==> (#[trigger] bookmarks[j]).bookmark_id != bookmark_id
}

/// Whether some bookmark has the id.
pub open spec fn has_bookmark(bookmarks: Seq<Bookmark>, bookmark_id: i64) -> bool {
    exists|i: int| 0 <= i < bookmarks.len() && (#[trigger] bookmarks[i]).bookmark_id == bookmark_id
}

/// Where the first bookmark with the id stands.
pub open spec fn bookmark_place(bookmarks: Seq<Bookmark>, bookmark_id: i64) -> int {
    choose|place: int| is_first_bookmark(bookmarks, bookmark_id, place)
}

/// Whether an article can be put together: some bookmark has its id and the
/// regex engine accepts the three patterns of the extraction.
pub open spec fn is_assembled(bookmarks: Seq<Bookmark>, article: Article) -> bool {
    has_bookmark(bookmarks, article.bookmark_id) && extraction_accepted()
}

/// The article put together: title and URL of the first bookmark with the
/// article's id, the given fragments and the article's blocks.
pub open spec fn assembly(
    bookmarks: Seq<Bookmark>,
    fragments: Seq<Seq<char>>,
    article: Article,
) -> HighlightedArticleView {
    HighlightedArticleView {
        title: bookmarks[bookmark_place(bookmarks, article.bookmark_id)].title@,
        bookmark_id: article.bookmark_id,
        url: bookmarks[bookmark_place(bookmarks, article.bookmark_id)].url@,
        raw_highlights: fragments,
        article_items: blocks_of(article.text@),
    }
}

/// The failure of an article that cannot be put together: `MissingJoin`
/// where no bookmark has its id, `Pattern` else.
pub open spec fn join_failure(bookmarks: Seq<Bookmark>, article: Article) -> PipelineError {
    if has_bookmark(bookmarks, article.bookmark_id) {
        PipelineError::Pattern { bookmark_id: article.bookmark_id }
    } else {
        PipelineError::MissingJoin { bookmark_id: article.bookmark_id }
    }
}

/// What putting an article together gives: the assembly, exactly when the
/// article can be put together; its failure otherwise.
pub open spec fn assembled(
    bookmarks: Seq<Bookmark>,
    fragments: Seq<Seq<char>>,
    article: Article,
    out: Result<HighlightedArticle, PipelineError>,
) -> bool {
    match out {
        Ok(joined) => is_assembled(bookmarks, article) && joined@ == assembly(
            bookmarks,
            fragments,
            article,
        ),
        Err(e) => !is_assembled(bookmarks, article) && e == join_failure(bookmarks, article),
    }
}

/// The article put together with the bookmarks and highlights of the list.
pub open spec fn joined_view(list: List, article: Article) -> HighlightedArticleView {
    assembly(list.bookmarks@, collected(list.highlights@, article.bookmark_id), article)
}

/// The articles that can be put together, each put together with the
/// bookmarks and highlights of the list, in the order of the articles.
pub open spec fn joined_of(list: List, articles: Seq<Article>) -> Seq<HighlightedArticleView>
    decreases articles.len(),
{
    if articles.len() == 0 {
        Seq::<HighlightedArticleView>::empty()
    } else if is_assembled(list.bookmarks@, articles.last()) {
        joined_of(list, articles.drop_last()).push(joined_view(list, articles.last()))
    } else {
        joined_of(list, articles.drop_last())
    }
}

/// The failures of the articles that cannot be put together, in the order
/// of the articles.
pub open spec fn join_failures_of(list: List, articles: Seq<Article>) -> Seq<PipelineError>
    decreases articles.len(),
{
    if articles.len() == 0 {
        Seq::<PipelineError>::empty()
    } else if is_assembled(list.bookmarks@, articles.last()) {
        join_failures_of(list, articles.drop_last())
    } else {
        join_failures_of(list, articles.drop_last()).push(
            join_failure(list.bookmarks@, articles.last()),
        )
    }
}

/// Only one place is that of the first bookmark with an id.
pub proof fn lemma_bookmark_place(bookmarks: Seq<Bookmark>, bookmark_id: i64, place: int)
    requires
        is_first_bookmark(bookmarks, bookmark_id, place),
    ensures
        bookmark_place(bookmarks, bookmark_id) == place,
        has_bookmark(bookmarks, bookmark_id),
{
    let other = bookmark_place(bookmarks, bookmark_id);
    assert(is_first_bookmark(bookmarks, bookmark_id, other));
    if other < place {
        assert(bookmarks[other].bookmark_id != bookmark_id);
    } else if place < other {
        assert(bookmarks[place].bookmark_id != bookmark_id);
    }
    assert(bookmarks[place].bookmark_id == bookmark_id);
}

/// Every article gives either a joined article or a failure. Where every
/// article can be put together, there is one joined article for each, in the
/// order of the articles, and no failure.
pub proof fn lemma_joined_of(list: List, articles: Seq<Article>)
    ensures
        joined_of(list, articles).len() + join_failures_of(list, articles).len() == articles.len(),
        (forall|i: int|
            0 <= i < articles.len() ==> is_assembled(list.bookmarks@, #[trigger] articles[i])) ==> {
            &&& join_failures_of(list, articles).len() == 0
            &&& joined_of(list, articles).len() == articles.len()
            &&& forall|i: int|
                0 <= i < articles.len() ==> (#[trigger] joined_of(list, articles)[i])
                    == joined_view(list, articles[i])
        },
    decreases articles.len(),
{
    if articles.len() > 0 {
        lemma_joined_of(list, articles.drop_last());
        if forall|i: int|
            0 <= i < articles.len() ==> is_assembled(list.bookmarks@, #[trigger] articles[i]) {
            assert forall|i: int| 0 <= i < articles.drop_last().len() implies is_assembled(
                list.bookmarks@,
                #[trigger] articles.drop_last()[i],
            ) by {
                assert(is_assembled(list.bookmarks@, articles[i]));
            }
            assert(is_assembled(list.bookmarks@, articles[articles.len() - 1]));
            assert forall|i: int| 0 <= i < articles.len() implies (#[trigger] joined_of(
                list,
                articles,
            )[i]) == joined_view(list, articles[i]) by {
                if i < articles.len() - 1 {
                    assert(joined_of(list, articles)[i] == joined_of(list, articles.drop_last())[i]);
                    assert(articles.drop_last()[i] == articles[i]);
                }
            }
        }
    }
}

/// A line of `SHORTEST_FRAGMENT` characters or fewer gives no fragment.
pub proof fn lemma_long_enough(pieces: Seq<Seq<char>>)
    ensures
        long_enough(pieces).len() <= pieces.len(),
        forall|i: int|
            0 <= i < long_enough(pieces).len() ==> (#[trigger] long_enough(pieces)[i]).len()
                > SHORTEST_FRAGMENT,
    decreases pieces.len(),
{
    if pieces.len() > 0 {
        lemma_long_enough(pieces.drop_last());
    }
}

/// The fragments of one highlight text: its lines, without those of
/// `SHORTEST_FRAGMENT` characters or fewer.
pub fn highlight_fragments(text: &str) -> (out: Vec<String>)
    ensures
        texts(out@) == fragments_of(text@),
{
    let mut seps: Vec<char> = Vec::new();
    seps.push('\n');
    assert(seps@ =~= line_breaks());
    let pieces = split(text, &seps);
    let mut out: Vec<String> = Vec::new();
    let mut i: usize = 0;
    assert(texts(pieces@).take(0) =~= Seq::<Seq<char>>::empty());
    assert(texts(out@) =~= Seq::<Seq<char>>::empty());
    while i < pieces.len()
        invariant
            i <= pieces.len(),
            texts(out@) == long_enough(texts(pieces@).take(i as int)),
        decreases pieces.len() - i,
    {
        proof {
            let t = texts(pieces@);
            assert(t.take(i + 1).drop_last() == t.take(i as int));
            assert(t.take(i + 1).last() == pieces@[i as int]@);
        }
        let ghost before = texts(out@);
        if pieces[i].as_str().unicode_len() > SHORTEST_FRAGMENT {
            out.push(pieces[i].clone());
            assert(texts(out@) =~= before.push(pieces@[i as int]@));
        }
        i += 1;
    }
    assert(texts(pieces@).take(pieces.len() as int) == texts(pieces@));
    out
}

/// Groups the fragments of all highlights by bookmark: every bookmark that
/// has a highlight gets the fragments of its highlights, in the order in
/// which the highlights stand in the list.
pub fn gather_highlights(list: &List) -> (map: HashMap<i64, Vec<String>>)
    ensures
        forall|id: i64| map@.contains_key(id) <==> has_highlight(list.highlights@, id),
        forall|id: i64|
            map@.contains_key(id) ==> texts((#[trigger] map@[id])@) == collected(
                list.highlights@,
                id,
            ),
{
    let mut map: HashMap<i64, Vec<String>> = HashMap::new();
    let mut i: usize = 0;
    while i < list.highlights.len()
        invariant
            i <= list.highlights.len(),
            forall|id: i64|
                map@.contains_key(id) <==> has_highlight(list.highlights@.take(i as int), id),
            forall|id: i64|
                map@.contains_key(id) ==> texts((#[trigger] map@[id])@) == collected(
                    list.highlights@.take(i as int),
                    id,
                ),
        decreases list.highlights.len() - i,
    {
        let highlight = &list.highlights[i];
        let key = highlight.bookmark_id;
        let ghost before = map@;
        let ghost shorter = list.highlights@.take(i as int);
        let ghost longer = list.highlights@.take(i + 1);
        let mut fragments = highlight_fragments(highlight.text.as_str());
        let mut values = match map.remove(&key) {
            Some(v) => v,
            None => Vec::new(),
        };
        let ghost old_values = values@;
        values.append(&mut fragments);
        map.insert(key, values);
        proof {
            assert(longer.drop_last() == shorter);
            assert(longer.last() == *highlight);
            assert(texts(old_values) =~= collected(shorter, key)) by {
                if before.contains_key(key) {
                } else {
                    lemma_collected_none(shorter, key);
                }
            }
            assert(texts(map@[key]@) =~= collected(longer, key));
            assert forall|id: i64| map@.contains_key(id) <==> has_highlight(longer, id) by {
                if has_highlight(shorter, id) {
                    let x = choose|x: int|
                        0 <= x < shorter.len() && (#[trigger] shorter[x]).bookmark_id == id;
                    assert(longer[x] == shorter[x]);
                }
                if id == key {
                    assert(longer[i as int].bookmark_id == id);
                }
                if has_highlight(longer, id) && id != key {
                    let x = choose|x: int|
                        0 <= x < longer.len() && (#[trigger] longer[x]).bookmark_id == id;
                    assert(shorter[x] == longer[x]);
                }
            }
            assert forall|id: i64| map@.contains_key(id) implies texts((#[trigger] map@[id])@)
                == collected(longer, id) by {
                if id != key {
                    assert(map@[id] == before[id]);
                }
            }
        }
        i += 1;
    }
    assert(list.highlights@.take(list.highlights.len() as int) == list.highlights@);
    map
}

/// A bookmark without highlights has no fragments.
pub proof fn lemma_collected_none(highlights: Seq<Highlight>, bookmark_id: i64)
    requires
        !has_highlight(highlights, bookmark_id),
    ensures
        collected(highlights, bookmark_id) == Seq::<Seq<char>>::empty(),
    decreases highlights.len(),
{
    if highlights.len() > 0 {
        assert(highlights[highlights.len() - 1].bookmark_id != bookmark_id);
        assert forall|i: int| 0 <= i < highlights.drop_last().len() implies (
        #[trigger] highlights.drop_last()[i]).bookmark_id != bookmark_id by {
            assert(highlights[i].bookmark_id != bookmark_id);
        }
        lemma_collected_none(highlights.drop_last(), bookmark_id);
    }
}

/// The distinct ids name every bookmark that has a highlight, no other, and
/// none twice.
pub proof fn lemma_distinct_ids(highlights: Seq<Highlight>)
    ensures
        distinct_ids(highlights).no_duplicates(),
        forall|id: i64| distinct_ids(highlights).contains(id) <==> has_highlight(highlights, id),
    decreases highlights.len(),
{
    if highlights.len() > 0 {
        let front = highlights.drop_last();
        let last = highlights.last().bookmark_id;
        lemma_distinct_ids(front);
        let ids = distinct_ids(highlights);
        assert forall|id: i64| ids.contains(id) <==> has_highlight(highlights, id) by {
            if has_highlight(front, id) {
                let x = choose|x: int| 0 <= x < front.len() && (#[trigger] front[x]).bookmark_id == id;
                assert(highlights[x].bookmark_id == id);
            }
            if has_highlight(highlights, id) && id != last {
                let x = choose|x: int|
                    0 <= x < highlights.len() && (#[trigger] highlights[x]).bookmark_id == id;
                assert(front[x].bookmark_id == id);
            }
            if id == last {
                assert(highlights[highlights.len() - 1].bookmark_id == id);
            }
            if distinct_ids(front).contains(id) {
                let x = choose|x: int| 0 <= x < distinct_ids(front).len() && distinct_ids(front)[x] == id;
                assert(ids[x] == id);
            }
            if ids.contains(id) && !distinct_ids(front).contains(id) {
                let x = choose|x: int| 0 <= x < ids.len() && ids[x] == id;
                assert(x == ids.len() - 1);
            }
            if id == last && !distinct_ids(front).contains(id) {
                assert(ids[ids.len() - 1] == id);
            }
        }
    }
}

/// The bookmarks that have a highlight: their ids, each once, in the order
/// in which the highlights first name them.
pub fn highlighted_bookmarks(list: &List) -> (ids: Vec<i64>)
    ensures
        ids@ == distinct_ids(list.highlights@),
        ids@.no_duplicates(),
        forall|id: i64| ids@.contains(id) <==> has_highlight(list.highlights@, id),
{
    let mut ids: Vec<i64> = Vec::new();
    let mut i: usize = 0;
    assert(list.highlights@.take(0) =~= Seq::<Highlight>::empty());
    while i < list.highlights.len()
        invariant
            i <= list.highlights.len(),
            ids@ == distinct_ids(list.highlights@.take(i as int)),
        decreases list.highlights.len() - i,
    {
        proof {
            let h = list.highlights@;
            assert(h.take(i + 1).drop_last() == h.take(i as int));
            assert(h.take(i + 1).last() == h[i as int]);
        }
        let id = list.highlights[i].bookmark_id;
        let mut known = false;
        let mut k: usize = 0;
        while k < ids.len()
            invariant
                k <= ids.len(),
                known == ids@.take(k as int).contains(id),
            decreases ids.len() - k,
        {
            proof {
                let shorter = ids@.take(k as int);
                let longer = ids@.take(k + 1);
                assert(longer =~= shorter.push(ids@[k as int]));
                if shorter.contains(id) {
                    let x = choose|x: int| 0 <= x < shorter.len() && shorter[x] == id;
                    assert(longer[x] == id);
                }
                if ids@[k as int] == id {
                    assert(longer[k as int] == id);
                }
                if longer.contains(id) && ids@[k as int] != id {
                    let x = choose|x: int| 0 <= x < longer.len() && longer[x] == id;
                    assert(shorter[x] == id);
                }
            }
            if ids[k] == id {
                known = true;
            }
            k += 1;
        }
        assert(ids@.take(ids.len() as int) == ids@);
        if !known {
            ids.push(id);
        }
        i += 1;
    }
    proof {
        assert(list.highlights@.take(list.highlights.len() as int) == list.highlights@);
        lemma_distinct_ids(list.highlights@);
    }
    ids
}

/// The place of the first bookmark with the id, if there is one.
pub fn find_bookmark(bookmarks: &Vec<Bookmark>, bookmark_id: i64) -> (place: Option<usize>)
    ensures
        match place {
            Some(i) => is_first_bookmark(bookmarks@, bookmark_id, i as int),
            None => !has_bookmark(bookmarks@, bookmark_id),
        },
{
    let mut i: usize = 0;
    while i < bookmarks.len()
        invariant
            i <= bookmarks.len(),
            forall|j: int| 0 <= j < i ==> (#[trigger] bookmarks@[j]).bookmark_id != bookmark_id,
        decreases bookmarks.len() - i,
    {
        if bookmarks[i].bookmark_id == bookmark_id {
            return Some(i);
        }
        i += 1;
    }
    None
}

/// Puts one article together: title and URL of its bookmark, the given
/// highlight fragments, and the blocks extracted from its text. Fails with
/// `MissingJoin` exactly when no bookmark has the article's id, and with
/// `Pattern` exactly when one has and the regex engine does not accept a
/// pattern of the extraction.
pub fn highlighted_article(
    bookmarks: &Vec<Bookmark>,
    fragments: Vec<String>,
    article: &Article,
) -> (out: Result<HighlightedArticle, PipelineError>)
    ensures
        assembled(bookmarks@, texts(fragments@), *article, out),
{
    let id = article.bookmark_id;
    let place = match find_bookmark(bookmarks, id) {
        None => {
            return Err(PipelineError::MissingJoin { bookmark_id: id });
        },
        Some(i) => i,
    };
    proof {
        lemma_bookmark_place(bookmarks@, id, place as int);
    }
    let items = match article_items(article) {
        None => {
            return Err(PipelineError::Pattern { bookmark_id: id });
        },
        Some(v) => v,
    };
    let bookmark = &bookmarks[place];
    let joined = HighlightedArticle {
        title: bookmark.title.clone(),
        bookmark_id: id,
        url: bookmark.url.clone(),
        raw_highlights: fragments,
        article_items: items,
    };
    Ok(joined)
}

/// Puts every article together with its bookmark and its highlight
/// fragments. An article that cannot be put together is left out and gives
/// its failure; the others are not affected, and joined articles and
/// failures come in the order of the articles.
pub fn article_objects(list: &List, articles: &Vec<Article>) -> (joined: Joined)
    ensures
        article_views(joined.articles@) == joined_of(*list, articles@),
        joined.failures@ == join_failures_of(*list, articles@),
        joined.articles.len() + joined.failures.len() == articles.len(),
{
    let highlights = gather_highlights(list);
    let mut done: Vec<HighlightedArticle> = Vec::new();
    let mut failed: Vec<PipelineError> = Vec::new();
    let mut i: usize = 0;
    assert(articles@.take(0) =~= Seq::<Article>::empty());
    assert(article_views(done@) =~= joined_of(*list, articles@.take(0)));
    while i < articles.len()
        invariant
            i <= articles.len(),
            forall|id: i64| highlights@.contains_key(id) <==> has_highlight(list.highlights@, id),
            forall|id: i64|
                highlights@.contains_key(id) ==> texts((#[trigger] highlights@[id])@) == collected(
                    list.highlights@,
                    id,
                ),
            article_views(done@) == joined_of(*list, articles@.take(i as int)),
            failed@ == join_failures_of(*list, articles@.take(i as int)),
            done.len() + failed.len() == i,
        decreases articles.len() - i,
    {
        proof {
            assert(articles@.take(i + 1).drop_last() == articles@.take(i as int));
            assert(articles@.take(i + 1).last() == articles@[i as int]);
        }
        let article = &articles[i];
        let fragments = match highlights.get(&article.bookmark_id) {
            Some(found) => clone_strings(found),
            None => {
                proof {
                    lemma_collected_none(list.highlights@, article.bookmark_id);
                }
                Vec::new()
            },
        };
        assert(texts(fragments@) =~= collected(list.highlights@, article.bookmark_id));
        let ghost before = article_views(done@);
        match highlighted_article(&list.bookmarks, fragments, article) {
            Ok(joined) => {
                done.push(joined);
                assert(article_views(done@) =~= before.push(joined_view(*list, *article)));
            },
            Err(e) => {
                failed.push(e);
            },
        }
        i += 1;
    }
    assert(articles@.take(articles.len() as int) == articles@);
    Joined { articles: done, failures: failed }
}

} // verus!
