use instapaper::extract::{article_items, extract_blocks};
use instapaper::insta_client::Article;

fn strings(items: &[&str]) -> Vec<String> {
    items.iter().map(|s| s.to_string()).collect()
}

#[test]
fn paragraphs_around_a_division_are_extracted() {
    assert_eq!(
        extract_blocks("<p>A</p><div>X</div><p>B</p>"),
        Some(strings(&["<p>A</p>", "<p>B</p>"]))
    );
}

#[test]
fn noise_only_markup_gives_no_block() {
    let markup = "<div><img src=\"x.png\"><a href=\"u\">link</a></div>\n<ul></ul>";
    assert_eq!(extract_blocks(markup), Some(strings(&[])));
}

#[test]
fn empty_markup_gives_no_block() {
    assert_eq!(extract_blocks(""), Some(strings(&[])));
}

#[test]
fn footnote_anchor_is_removed_with_its_digit() {
    assert_eq!(
        extract_blocks("<p>Text<a href=\"#fn1\">1</a> more</p>"),
        Some(strings(&["<p>Text more</p>"]))
    );
}

#[test]
fn anchor_around_a_word_keeps_the_word() {
    assert_eq!(
        extract_blocks("<p>See <a href=\"u\">here</a> now</p>"),
        Some(strings(&["<p>See here now</p>"]))
    );
}

#[test]
fn anchor_around_a_letter_keeps_the_letter() {
    assert_eq!(
        extract_blocks("<p>Item <a href=\"u\">d</a> done</p>"),
        Some(strings(&["<p>Item d done</p>"]))
    );
}

#[test]
fn headings_and_list_items_are_blocks_in_document_order() {
    let markup = "<h2>Title</h2><ul><li>One</li><li>Two</li></ul><p>Para</p><h6>End</h6>";
    assert_eq!(
        extract_blocks(markup),
        Some(strings(&[
            "<h2>Title</h2>",
            "<li>One</li>",
            "<li>Two</li>",
            "<p>Para</p>",
            "<h6>End</h6>"
        ]))
    );
}

#[test]
fn block_without_closing_tag_is_skipped() {
    assert_eq!(extract_blocks("<p>open only"), Some(strings(&[])));
    assert_eq!(
        extract_blocks("<h1>never closed<p>closed</p>"),
        Some(strings(&["<p>closed</p>"]))
    );
}

#[test]
fn block_ends_at_first_closing_tag() {
    assert_eq!(
        extract_blocks("<p>first<p>second</p>third</p>"),
        Some(strings(&["<p>first<p>second</p>"]))
    );
}

#[test]
fn line_breaks_are_removed() {
    assert_eq!(
        extract_blocks("<p>line one\nline two</p>\n<p>next</p>"),
        Some(strings(&["<p>line oneline two</p>", "<p>next</p>"]))
    );
}

#[test]
fn equal_blocks_are_all_kept() {
    assert_eq!(
        extract_blocks("<p>same</p><p>same</p>"),
        Some(strings(&["<p>same</p>", "<p>same</p>"]))
    );
}

#[test]
fn article_items_reads_the_article_text() {
    let article = Article { bookmark_id: 9, text: "<li>Point</li><img src=\"a\">".to_string() };
    assert_eq!(article_items(&article), Some(strings(&["<li>Point</li>"])));
}

#[test]
fn element_that_only_begins_like_an_anchor_stays() {
    let article =
        Article { bookmark_id: 1, text: "<p>An <abbr>HTML</abbr> page</p>".to_string() };
    assert_eq!(article_items(&article), Some(strings(&["<p>An <abbr>HTML</abbr> page</p>"])));
}

#[test]
fn elements_that_only_begin_like_noise_stay() {
    assert_eq!(
        extract_blocks("<article><p>In an <address>x</address></p></article><aside>s</aside>"),
        Some(strings(&["<p>In an <address>x</address></p>"]))
    );
    assert_eq!(
        extract_blocks("<p><audio src=\"a\"></audio><divider>d</divider><olive>o</olive></p>"),
        Some(strings(&["<p><audio src=\"a\"></audio><divider>d</divider><olive>o</olive></p>"]))
    );
}

#[test]
fn noise_tags_go_with_their_attributes() {
    assert_eq!(
        extract_blocks(
            "<div class=\"c\" id='i'><p>A<img src=\"x.png\"/><img/>B<a\nhref=\"u\">C</a ></p></div>"
        ),
        Some(strings(&["<p>ABC</p>"]))
    );
}

#[test]
fn footnote_anchor_does_not_reach_over_other_anchors() {
    assert_eq!(
        extract_blocks("<p><a href=\"x\">link</a> and note<a href=\"#fn\">1</a></p>"),
        Some(strings(&["<p>link and note</p>"]))
    );
}

#[test]
fn anchor_around_two_digits_keeps_them() {
    assert_eq!(extract_blocks("<p>Year<a href=\"y\">42</a></p>"), Some(strings(&["<p>Year42</p>"])));
}

#[test]
fn extraction_gives_a_list_for_any_markup() {
    for markup in ["", "<", "<p", "</p><p>", "<p><p><p>", "<li>é–ü</li>", "><><", "<a <a <a>1</a>"] {
        assert!(extract_blocks(markup).is_some());
    }
}
