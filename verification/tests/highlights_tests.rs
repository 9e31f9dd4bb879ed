use instapaper::error::PipelineError;
use instapaper::highlights::{
    article_objects, find_bookmark, gather_highlights, highlight_fragments, highlighted_article,
};
use instapaper::insta_client::{Article, Bookmark, Highlight, List, User};

fn strings(items: &[&str]) -> Vec<String> {
    items.iter().map(|s| s.to_string()).collect()
}

fn highlight(bookmark_id: i64, text: &str) -> Highlight {
    Highlight { bookmark_id, text: text.to_string(), ..Default::default() }
}

fn bookmark(bookmark_id: i64, title: &str, url: &str) -> Bookmark {
    Bookmark {
        bookmark_id,
        title: title.to_string(),
        url: url.to_string(),
        ..Default::default()
    }
}

fn list(bookmarks: Vec<Bookmark>, highlights: Vec<Highlight>) -> List {
    List { bookmarks, user: User::default(), highlights, delete_ids: Vec::new() }
}

#[test]
fn short_first_line_is_dropped() {
    assert_eq!(
        highlight_fragments("short\nThis fragment is definitely long enough"),
        strings(&["This fragment is definitely long enough"])
    );
}

#[test]
fn fragment_of_fifteen_characters_is_dropped() {
    assert_eq!(highlight_fragments("123456789012345"), strings(&[]));
}

#[test]
fn fragment_of_sixteen_characters_is_kept() {
    assert_eq!(highlight_fragments("1234567890123456"), strings(&["1234567890123456"]));
}

#[test]
fn fragment_length_counts_characters_not_bytes() {
    let fifteen = "é".repeat(15);
    let sixteen = "é".repeat(16);
    assert_eq!(highlight_fragments(&fifteen), strings(&[]));
    assert_eq!(highlight_fragments(&sixteen), vec![sixteen.clone()]);
}

#[test]
fn empty_lines_are_dropped() {
    assert_eq!(
        highlight_fragments("\n\nA first line that is long\n\nA second line that is long\n"),
        strings(&["A first line that is long", "A second line that is long"])
    );
}

#[test]
fn highlights_are_grouped_by_bookmark_in_order() {
    let l = list(
        vec![],
        vec![
            highlight(1, "First fragment of bookmark one"),
            highlight(2, "Only fragment of bookmark two"),
            highlight(1, "tiny\nSecond fragment of bookmark one"),
        ],
    );
    let map = gather_highlights(&l);
    assert_eq!(map.len(), 2);
    assert_eq!(
        map.get(&1),
        Some(&strings(&["First fragment of bookmark one", "Second fragment of bookmark one"]))
    );
    assert_eq!(map.get(&2), Some(&strings(&["Only fragment of bookmark two"])));
    assert_eq!(map.get(&3), None);
}

#[test]
fn bookmark_with_only_short_highlights_has_no_fragment() {
    let l = list(vec![], vec![highlight(5, "too short")]);
    let map = gather_highlights(&l);
    assert_eq!(map.get(&5), Some(&strings(&[])));
}

#[test]
fn equal_fragments_of_different_bookmarks_are_both_kept() {
    let l = list(
        vec![],
        vec![highlight(1, "The very same fragment"), highlight(2, "The very same fragment")],
    );
    let map = gather_highlights(&l);
    assert_eq!(map.get(&1), Some(&strings(&["The very same fragment"])));
    assert_eq!(map.get(&2), Some(&strings(&["The very same fragment"])));
}

#[test]
fn no_highlights_give_an_empty_map() {
    assert!(gather_highlights(&list(vec![], vec![])).is_empty());
}

#[test]
fn find_bookmark_gives_the_first_with_the_id() {
    let bookmarks = vec![bookmark(1, "a", "u"), bookmark(2, "b", "v"), bookmark(2, "c", "w")];
    assert_eq!(find_bookmark(&bookmarks, 2), Some(1));
    assert_eq!(find_bookmark(&bookmarks, 1), Some(0));
    assert_eq!(find_bookmark(&bookmarks, 3), None);
}

#[test]
fn highlighted_article_joins_bookmark_fragments_and_blocks() {
    let bookmarks = vec![bookmark(4, "Title", "https://example.com/x")];
    let article = Article { bookmark_id: 4, text: "<p>One</p><div><p>Two</p></div>".to_string() };
    let joined =
        highlighted_article(&bookmarks, strings(&["A fragment that is long"]), &article).unwrap();
    assert_eq!(joined.title, "Title");
    assert_eq!(joined.bookmark_id, 4);
    assert_eq!(joined.url, "https://example.com/x");
    assert_eq!(joined.raw_highlights, strings(&["A fragment that is long"]));
    assert_eq!(joined.article_items, strings(&["<p>One</p>", "<p>Two</p>"]));
}

#[test]
fn article_without_bookmark_is_a_missing_join() {
    let article = Article { bookmark_id: 8, text: "<p>One</p>".to_string() };
    assert_eq!(
        highlighted_article(&vec![bookmark(4, "T", "u")], strings(&[]), &article),
        Err(PipelineError::MissingJoin { bookmark_id: 8 })
    );
}

#[test]
fn article_objects_joins_every_article() {
    let l = list(
        vec![bookmark(1, "One", "https://one.example/a"), bookmark(2, "Two", "https://two.example/b")],
        vec![
            highlight(2, "A highlight in article two"),
            highlight(1, "A highlight in article one"),
            highlight(2, "Another highlight in article two"),
        ],
    );
    let articles = vec![
        Article { bookmark_id: 2, text: "<p>Body two</p>".to_string() },
        Article { bookmark_id: 1, text: "<h1>Head one</h1><p>Body one</p>".to_string() },
    ];
    let joined = article_objects(&l, &articles);
    assert!(joined.failures.is_empty());
    assert_eq!(joined.articles.len(), 2);
    assert_eq!(joined.articles[0].bookmark_id, 2);
    assert_eq!(joined.articles[0].title, "Two");
    assert_eq!(joined.articles[0].url, "https://two.example/b");
    assert_eq!(
        joined.articles[0].raw_highlights,
        strings(&["A highlight in article two", "Another highlight in article two"])
    );
    assert_eq!(joined.articles[0].article_items, strings(&["<p>Body two</p>"]));
    assert_eq!(joined.articles[1].bookmark_id, 1);
    assert_eq!(joined.articles[1].raw_highlights, strings(&["A highlight in article one"]));
    assert_eq!(joined.articles[1].article_items, strings(&["<h1>Head one</h1>", "<p>Body one</p>"]));
}

#[test]
fn article_objects_skips_the_article_without_bookmark() {
    let l = list(vec![bookmark(1, "One", "https://one.example/a")], vec![]);
    let articles = vec![
        Article { bookmark_id: 7, text: "<p>Lost</p>".to_string() },
        Article { bookmark_id: 1, text: "<p>Found</p>".to_string() },
    ];
    let joined = article_objects(&l, &articles);
    assert_eq!(joined.failures, vec![PipelineError::MissingJoin { bookmark_id: 7 }]);
    assert_eq!(joined.articles.len(), 1);
    assert_eq!(joined.articles[0].bookmark_id, 1);
    assert_eq!(joined.articles[0].raw_highlights, strings(&[]));
    assert_eq!(joined.articles[0].article_items, strings(&["<p>Found</p>"]));
}

#[test]
fn highlighted_bookmarks_names_each_bookmark_once() {
    let l = list(
        vec![],
        vec![
            highlight(3, "x"),
            highlight(1, "y"),
            highlight(3, "z"),
            highlight(2, "w"),
            highlight(1, "v"),
        ],
    );
    assert_eq!(instapaper::highlights::highlighted_bookmarks(&l), vec![3, 1, 2]);
    assert_eq!(instapaper::highlights::highlighted_bookmarks(&list(vec![], vec![])), vec![]);
}

#[test]
fn absorb_appends_bookmarks_and_highlights() {
    let mut first = list(vec![bookmark(1, "a", "u")], vec![highlight(1, "one")]);
    first.delete_ids = vec![9];
    first.user.username = "me".to_string();
    let mut second = list(vec![bookmark(2, "b", "v")], vec![highlight(2, "two"), highlight(1, "three")]);
    second.delete_ids = vec![8];
    second.user.username = "other".to_string();
    first.absorb(second);
    assert_eq!(first.bookmarks, vec![bookmark(1, "a", "u"), bookmark(2, "b", "v")]);
    assert_eq!(
        first.highlights,
        vec![highlight(1, "one"), highlight(2, "two"), highlight(1, "three")]
    );
    assert_eq!(first.delete_ids, vec![9]);
    assert_eq!(first.user.username, "me");
}
