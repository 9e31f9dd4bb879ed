use instapaper::cards::ArticleCards;
use instapaper::summary::{
    card_block, choose_card, column_break, draw_picks, random_summary, render_card, render_columns, sort_descending,
    summary_of, Chosen, DISPLAY,
};

fn strings(items: &[&str]) -> Vec<String> {
    items.iter().map(|s| s.to_string()).collect()
}

fn corpus_article(id: i64, title: &str, cards: &[&str]) -> ArticleCards {
    ArticleCards {
        title: title.to_string(),
        bookmark_id: id,
        url: format!("https://site{}.example/post", id),
        domain: format!("site{}.example", id),
        cards: strings(cards),
        ranking: 0,
    }
}

fn chosen(title: &str, length: usize) -> Chosen {
    Chosen {
        title: title.to_string(),
        text: "x".repeat(length),
        url: "u".to_string(),
        domain: "d".to_string(),
        length,
        others: 1,
    }
}

fn card_markup(title: &str, text: &str, others: usize, url: &str, domain: &str) -> String {
    format!(
        "<div class='card'><h3>{}</h3>{}<h5>{} other highlights<h5><h4><a href={}>{}</a></h4></div>",
        title, text, others, url, domain
    )
}

#[test]
fn break_comes_once_running_length_exceeds_half() {
    assert_eq!(column_break(&vec![10, 9, 8, 7, 6, 5, 4, 3, 2, 1]), 4);
}

#[test]
fn break_of_no_cards_is_zero() {
    assert_eq!(column_break(&vec![]), 0);
}

#[test]
fn break_of_empty_cards_is_zero() {
    assert_eq!(column_break(&vec![0, 0, 0]), 0);
}

#[test]
fn break_of_one_card_is_one() {
    assert_eq!(column_break(&vec![5]), 1);
}

#[test]
fn break_needs_more_than_half() {
    assert_eq!(column_break(&vec![3, 3]), 2);
    assert_eq!(column_break(&vec![4, 3]), 1);
    assert_eq!(column_break(&vec![1, 1, 1]), 2);
}

#[test]
fn break_with_very_long_cards_does_not_overflow() {
    assert_eq!(column_break(&vec![usize::MAX, usize::MAX, usize::MAX]), 2);
}

#[test]
fn sort_puts_longest_first() {
    let items = vec![chosen("a", 2), chosen("b", 9), chosen("c", 5)];
    let sorted = sort_descending(&items);
    let titles: Vec<&str> = sorted.iter().map(|c| c.title.as_str()).collect();
    assert_eq!(titles, vec!["b", "c", "a"]);
}

#[test]
fn sort_keeps_order_of_equal_lengths() {
    let items = vec![chosen("a", 3), chosen("b", 5), chosen("c", 3), chosen("d", 5)];
    let sorted = sort_descending(&items);
    let titles: Vec<&str> = sorted.iter().map(|c| c.title.as_str()).collect();
    assert_eq!(titles, vec!["b", "d", "a", "c"]);
    assert_eq!(sorted[0], items[1]);
}

#[test]
fn sort_of_nothing_is_nothing() {
    assert_eq!(sort_descending(&vec![]), vec![]);
}

#[test]
fn choose_card_measures_bytes_and_counts_cards() {
    let articles = vec![corpus_article(1, "One", &["plain", "héllo"])];
    let c = choose_card(&articles, 0, 1).unwrap();
    assert_eq!(c.title, "One");
    assert_eq!(c.text, "héllo");
    assert_eq!(c.url, "https://site1.example/post");
    assert_eq!(c.domain, "site1.example");
    assert_eq!(c.length, 6);
    assert_eq!(c.others, 2);
}

#[test]
fn choose_card_outside_the_corpus_is_none() {
    let articles = vec![corpus_article(1, "One", &["plain"])];
    assert_eq!(choose_card(&articles, 0, 1), None);
    assert_eq!(choose_card(&articles, 1, 0), None);
    assert_eq!(choose_card(&vec![], 0, 0), None);
}

#[test]
fn render_columns_with_break_behind_the_end() {
    assert_eq!(
        render_columns(&strings(&["A", "B"]), 5),
        "<div class='col'>AB</div><div class='col'></div>"
    );
}

#[test]
fn render_card_writes_the_card_block() {
    let c = Chosen {
        title: "T".to_string(),
        text: "<p>Hi</p>".to_string(),
        url: "https://e.com/a".to_string(),
        domain: "e.com".to_string(),
        length: 9,
        others: 3,
    };
    assert_eq!(
        render_card(&c),
        Some(
            "<div class='card'><h3>T</h3><p>Hi</p><h5>3 other highlights<h5><h4><a href=https://e.com/a>e.com</a></h4></div>"
                .to_string()
        )
    );
}

#[test]
fn render_card_turns_escaped_quotes_into_quotes() {
    let c = Chosen { text: "<p>He said \\\"yes\\\" twice</p>".to_string(), ..chosen("T", 0) };
    assert_eq!(
        render_card(&c),
        Some(card_markup("T", "<p>He said \"yes\" twice</p>", 1, "u", "d"))
    );
}

#[test]
fn render_card_leaves_other_characters_alone() {
    let c = Chosen { text: "Note: this \\n 'that' \"it\" \\".to_string(), ..chosen("T", 0) };
    assert_eq!(
        render_card(&c),
        Some(card_markup("T", "Note: this \\n 'that' \"it\" \\", 1, "u", "d"))
    );
}

#[test]
fn render_card_writes_large_counts() {
    let c = Chosen { others: 1204, ..chosen("T", 1) };
    assert_eq!(render_card(&c), Some(card_markup("T", "x", 1204, "u", "d")));
}

#[test]
fn render_columns_splits_at_the_break() {
    assert_eq!(
        render_columns(&strings(&["A", "B", "C"]), 1),
        "<div class='col'>A</div><div class='col'>BC</div>"
    );
}

#[test]
fn render_columns_with_break_at_either_end() {
    assert_eq!(
        render_columns(&strings(&["A", "B"]), 0),
        "<div class='col'></div><div class='col'>AB</div>"
    );
    assert_eq!(
        render_columns(&strings(&["A", "B"]), 2),
        "<div class='col'>AB</div><div class='col'></div>"
    );
}

#[test]
fn summary_orders_and_balances_the_picked_cards() {
    let articles = vec![corpus_article(1, "One", &["aaaa", "bb", "c"])];
    let picks = vec![(0, 1), (0, 0), (0, 2)];
    let url = "https://site1.example/post";
    let domain = "site1.example";
    let expected = format!(
        "<div class='col'>{}</div><div class='col'>{}{}</div>",
        card_markup("One", "aaaa", 3, url, domain),
        card_markup("One", "bb", 3, url, domain),
        card_markup("One", "c", 3, url, domain),
    );
    assert_eq!(summary_of(&articles, &picks), Some(expected));
}

#[test]
fn summary_of_ten_cards_breaks_after_the_fourth() {
    let cards: Vec<String> = (1..=10).map(|n| "x".repeat(n)).collect();
    let card_refs: Vec<&str> = cards.iter().map(|s| s.as_str()).collect();
    let articles = vec![corpus_article(1, "One", &card_refs)];
    let picks: Vec<(usize, usize)> = (0..10).map(|i| (0, i)).collect();
    let url = "https://site1.example/post";
    let domain = "site1.example";
    let rendered: Vec<String> = (1..=10)
        .rev()
        .map(|n| card_markup("One", &"x".repeat(n), 10, url, domain))
        .collect();
    let expected = format!(
        "<div class='col'>{}</div><div class='col'>{}</div>",
        rendered[..4].concat(),
        rendered[4..].concat()
    );
    assert_eq!(summary_of(&articles, &picks), Some(expected));
}

#[test]
fn summary_may_pick_a_card_twice() {
    let articles = vec![corpus_article(1, "One", &["ab"])];
    let url = "https://site1.example/post";
    let card = card_markup("One", "ab", 1, url, "site1.example");
    assert_eq!(
        summary_of(&articles, &vec![(0, 0), (0, 0)]),
        Some(format!("<div class='col'>{}{}</div><div class='col'></div>", card, card))
    );
}

#[test]
fn summary_of_a_pick_outside_the_corpus_is_none() {
    let articles = vec![corpus_article(1, "One", &["a"])];
    assert_eq!(summary_of(&articles, &vec![(1, 0)]), None);
    assert_eq!(summary_of(&articles, &vec![(0, 0), (0, 1)]), None);
}

#[test]
fn summary_of_no_picks_is_two_empty_columns() {
    let articles = vec![corpus_article(1, "One", &["a"])];
    assert_eq!(
        summary_of(&articles, &vec![]),
        Some("<div class='col'></div><div class='col'></div>".to_string())
    );
}

#[test]
fn random_summary_of_empty_corpus_is_none() {
    assert_eq!(random_summary(&vec![]), None);
}

#[test]
fn random_summary_of_an_article_without_cards_is_none() {
    assert_eq!(random_summary(&vec![corpus_article(1, "One", &[])]), None);
}

#[test]
fn random_summary_shows_display_many_cards_in_two_columns() {
    let articles = vec![
        corpus_article(1, "One", &["<p>alpha</p>", "<p>beta beta</p>"]),
        corpus_article(2, "Two", &["<p>gamma gamma gamma</p>"]),
    ];
    for _ in 0..20 {
        let fragment = random_summary(&articles).unwrap();
        assert_eq!(fragment.matches("<div class='card'>").count(), DISPLAY);
        assert_eq!(fragment.matches("<div class='col'>").count(), 2);
        assert!(fragment.starts_with("<div class='col'><div class='card'>"));
        assert!(fragment.ends_with("</div>"));
    }
}

#[test]
fn random_summary_of_one_card_repeats_it() {
    let articles = vec![corpus_article(1, "One", &["ab"])];
    let card = card_markup("One", "ab", 1, "https://site1.example/post", "site1.example");
    let expected = format!(
        "<div class='col'>{}</div><div class='col'>{}</div>",
        card.repeat(6),
        card.repeat(4)
    );
    assert_eq!(random_summary(&articles), Some(expected));
}

#[test]
fn draw_picks_names_cards_of_the_corpus() {
    let articles = vec![
        corpus_article(1, "One", &["a", "b", "c"]),
        corpus_article(2, "Two", &["d"]),
    ];
    for _ in 0..50 {
        let picks = draw_picks(&articles, 7).unwrap();
        assert_eq!(picks.len(), 7);
        for (art, card) in picks {
            assert!(art < articles.len());
            assert!(card < articles[art].cards.len());
        }
    }
}

#[test]
fn draw_picks_of_nothing_needs_no_corpus() {
    assert_eq!(draw_picks(&vec![], 0), Some(vec![]));
    assert_eq!(draw_picks(&vec![], 1), None);
}

#[test]
fn card_block_is_written_around_the_given_text() {
    let c = Chosen {
        title: "Title".to_string(),
        text: "not shown".to_string(),
        url: "https://e.com/a".to_string(),
        domain: "e.com".to_string(),
        length: 9,
        others: 12,
    };
    assert_eq!(
        card_block(&c, "<p>shown</p>"),
        "<div class='card'><h3>Title</h3><p>shown</p><h5>12 other highlights<h5><h4><a href=https://e.com/a>e.com</a></h4></div>"
    );
}

#[test]
fn render_card_is_the_block_around_the_escaped_text() {
    let c = Chosen { text: "say \\\"hi\\\" now".to_string(), ..chosen("T", 0) };
    assert_eq!(render_card(&c), Some(card_block(&c, "say \"hi\" now")));
}
