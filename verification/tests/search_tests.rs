use instapaper::cards::ArticleCards;
use instapaper::search::{
    article_tokens, cut_tokens, index_text, generate_search_index, index_documents, separators, Document, THRESHOLD,
};

fn strings(items: &[&str]) -> Vec<String> {
    items.iter().map(|s| s.to_string()).collect()
}

fn document(id: i64, tokens: &[&str]) -> Document {
    Document { bookmark_id: id, tokens: strings(tokens) }
}

fn corpus_article(id: i64, title: &str, domain: &str, cards: &[&str]) -> ArticleCards {
    ArticleCards {
        title: title.to_string(),
        bookmark_id: id,
        url: format!("https://{}/post", domain),
        domain: domain.to_string(),
        cards: strings(cards),
        ranking: 0,
    }
}

fn sorted(mut ids: Vec<i64>) -> Vec<i64> {
    ids.sort();
    ids
}

#[test]
fn separators_are_the_sixteen_cut_characters() {
    assert_eq!(
        separators(),
        vec![
            ':', '-', ' ', ')', '(', '–', '.', '\\', ',', '”', '“', '’', '"', '—', ';', '/'
        ]
    );
}

#[test]
fn article_tokens_strips_lowercases_and_cuts() {
    let a = corpus_article(
        1,
        "My Title",
        "example.com",
        &["<p>Hello <mark>World</mark>?</p>", "<p>Foo-bar</p>"],
    );
    assert_eq!(
        article_tokens(&a),
        Some(strings(&["hello", "world", "foo", "barmy", "titleexample", "com"]))
    );
}

#[test]
fn article_tokens_keeps_empty_tokens_between_separators() {
    let a = corpus_article(1, "", "", &["a, b"]);
    assert_eq!(article_tokens(&a), Some(strings(&["a", "", "b"])));
}

#[test]
fn article_tokens_removes_double_spaces_and_question_marks() {
    let a = corpus_article(1, "", "", &["why?  not"]);
    assert_eq!(article_tokens(&a), Some(strings(&["whynot"])));
}

#[test]
fn article_tokens_cuts_at_curly_quotes_and_dashes() {
    let a = corpus_article(1, "", "", &["“Quoted”—dash–it’s;x/y(z)"]);
    assert_eq!(
        article_tokens(&a),
        Some(strings(&["", "quoted", "", "dash", "it", "s", "x", "y", "z", ""]))
    );
}

#[test]
fn article_tokens_lowercases_beyond_ascii() {
    let a = corpus_article(1, "", "", &["ÉCOLE Ünite"]);
    assert_eq!(article_tokens(&a), Some(strings(&["école", "ünite"])));
}

#[test]
fn index_maps_each_token_to_its_articles() {
    let index = index_documents(&vec![
        document(1, &["apple", "pear"]),
        document(2, &["pear", "plum", "pear"]),
        document(3, &["apple"]),
    ]);
    assert_eq!(index.len(), 3);
    assert_eq!(index.lookup("apple").map(sorted), Some(vec![1, 3]));
    assert_eq!(index.lookup("pear").map(sorted), Some(vec![1, 2]));
    assert_eq!(index.lookup("plum").map(sorted), Some(vec![2]));
    assert_eq!(index.lookup("fig"), None);
}

#[test]
fn index_counts_a_bookmark_once() {
    let index = index_documents(&vec![document(4, &["word", "word"]), document(4, &["word"])]);
    assert_eq!(index.lookup("word"), Some(vec![4]));
    assert_eq!(index.len(), 1);
}

#[test]
fn index_of_nothing_is_empty() {
    let index = index_documents(&vec![]);
    assert_eq!(index.len(), 0);
    assert!(index.entries().is_empty());
    assert_eq!(index.lookup(""), None);
}

#[test]
fn token_in_one_hundred_and_one_articles_is_pruned() {
    let docs: Vec<Document> = (0..101).map(|id| document(id, &["common", "edge"])).collect();
    let index = index_documents(&docs);
    assert_eq!(index.lookup("common"), None);
    assert_eq!(index.lookup("edge"), None);
    assert_eq!(index.len(), 0);
}

#[test]
fn token_in_one_hundred_articles_is_kept() {
    let mut docs: Vec<Document> = (0..100).map(|id| document(id, &["common", "edge"])).collect();
    docs.push(document(100, &["common"]));
    let index = index_documents(&docs);
    assert_eq!(index.lookup("common"), None);
    let ids = index.lookup("edge").unwrap();
    assert_eq!(ids.len(), THRESHOLD);
    assert_eq!(sorted(ids), (0..100).collect::<Vec<i64>>());
    assert_eq!(index.len(), 1);
}

#[test]
fn token_repeated_in_few_articles_is_kept() {
    let tokens: Vec<&str> = (0..150).map(|_| "often").collect();
    let index = index_documents(&vec![document(1, &tokens), document(2, &tokens)]);
    assert_eq!(index.lookup("often").map(sorted), Some(vec![1, 2]));
}

#[test]
fn entries_hold_no_token_twice_and_no_empty_set() {
    let index = index_documents(&vec![
        document(1, &["a", "b", "a"]),
        document(2, &["b", "c"]),
        document(1, &["c"]),
    ]);
    let entries = index.entries();
    assert_eq!(entries.len(), 3);
    for (i, e) in entries.iter().enumerate() {
        assert!(!e.ids.is_empty());
        let ids = sorted(e.ids.clone());
        let mut unique = ids.clone();
        unique.dedup();
        assert_eq!(ids, unique);
        for other in &entries[i + 1..] {
            assert_ne!(e.token, other.token);
        }
    }
}

#[test]
fn search_index_of_a_corpus() {
    let corpus = vec![
        corpus_article(10, "Rust", "a.example", &["<p>Memory <b>safety</b></p>"]),
        corpus_article(20, "Verus", "b.example", &["<p>Proofs of safety</p>", "<p>More proofs</p>"]),
    ];
    let index = generate_search_index(&corpus).unwrap();
    assert_eq!(index.lookup("safety").map(sorted), Some(vec![20]));
    assert_eq!(index.lookup("safetyrusta").map(sorted), Some(vec![10]));
    assert_eq!(index.lookup("memory").map(sorted), Some(vec![10]));
    assert_eq!(index.lookup("proofs").map(sorted), Some(vec![20]));
    assert_eq!(index.lookup("proofsverusb").map(sorted), Some(vec![20]));
    assert_eq!(index.lookup("example").map(sorted), Some(vec![10, 20]));
    assert_eq!(index.lookup("of").map(sorted), Some(vec![20]));
    assert_eq!(index.lookup("Memory"), None);
}

#[test]
fn search_index_prunes_what_every_article_holds() {
    let corpus: Vec<ArticleCards> = (0..101)
        .map(|id| {
            corpus_article(id, "t", "d.example", &[&format!("<p>shared word{} here</p>", id)])
        })
        .collect();
    let index = generate_search_index(&corpus).unwrap();
    assert_eq!(index.lookup("shared"), None);
    assert_eq!(index.lookup("word7"), Some(vec![7]));
    assert_eq!(index.lookup("example"), None);
}

#[test]
fn index_text_joins_cards_title_and_domain() {
    let a = corpus_article(1, "My Title", "example.com", &["<p>One</p>", "<p>Two</p>"]);
    assert_eq!(index_text(&a), "<p>One</p> <p>Two</p>My Titleexample.com");
    assert_eq!(index_text(&corpus_article(2, "T", "d", &[])), "Td");
}

#[test]
fn cut_tokens_lowercases_and_cuts() {
    assert_eq!(cut_tokens("Hello World;FOO/bar"), strings(&["hello", "world", "foo", "bar"]));
    assert_eq!(cut_tokens(""), strings(&[""]));
    assert_eq!(cut_tokens("<P>kept?</P>"), strings(&["<p>kept?<", "p>"]));
}

#[test]
fn article_tokens_keeps_tags_that_only_begin_alike() {
    let a = corpus_article(1, "", "", &["<p>a<br>b<pre>c</pre><img>d<body>e<i>f</i><b id=\"x\">g</b></p>"]);
    assert_eq!(
        article_tokens(&a),
        Some(strings(&["a<br>b<pre>c<", "pre><img>d<body>efg"]))
    );
}
