use vstd::prelude::*;
use rand::Rng;
use crate::cards::corpus_view;
use crate::cards::ArticleCards;
use crate::cards::ArticleCardsView;
use crate::pattern::regex_accepted;
use crate::pattern::regex_replaced;
use crate::pattern::replace_all;
use crate::text::byte_len;
use crate::text::decimal;
use crate::text::decimal_string;
use crate::text::join;
use crate::text::joined;
use crate::text::texts;
use crate::text::NOTHING;

verus! {

/// How many cards a random summary shows.
pub const DISPLAY: usize = 10;

/// What the escape pass of a card's text looks for: a quote character with
/// a backslash in front of it.
pub const QUOTE_ESCAPES: &'static str = r#"\\""#;

/// What the escape pass puts in place of each match.
pub const QUOTE: &'static str = "\"";

pub const CARD_OPEN: &'static str = "<div class='card'><h3>";

pub const TITLE_CLOSE: &'static str = "</h3>";

pub const COUNT_OPEN: &'static str = "<h5>";

pub const COUNT_CLOSE: &'static str = " other highlights<h5><h4><a href=";

pub const LINK_MIDDLE: &'static str = ">";

pub const CARD_CLOSE: &'static str = "</a></h4></div>";

pub const COLUMN_OPEN: &'static str = "<div class='col'>";

pub const COLUMN_CLOSE: &'static str = "</div>";

/// One card drawn for the summary, with what its rendering needs.
#[derive(Debug, Clone, Default, PartialEq, Eq)]
pub struct Chosen {
    pub title: String,
    pub text: String,
    pub url: String,
    pub domain: String,
    /// The length by which the card is weighed when the columns are balanced.
    pub length: usize,
    /// How many cards the card's article has.
    pub others: usize,
}

/// A `Chosen` as plain mathematical data.
pub struct ChosenView {
    pub title: Seq<char>,
    pub text: Seq<char>,
    pub url: Seq<char>,
    pub domain: Seq<char>,
    pub length: usize,
    pub others: usize,
}

impl View for Chosen {
    type V = ChosenView;

    open spec fn view(&self) -> ChosenView {
        ChosenView {
            title: self.title@,
            text: self.text@,
            url: self.url@,
            domain: self.domain@,
            length: self.length,
            others: self.others,
        }
    }
}

/// The views of a list of chosen cards.
pub open spec fn chosen_views(items: Seq<Chosen>) -> Seq<ChosenView> {
    Seq::new(items.len(), |i: int| items[i]@)
}

/// Whether `pick` names an article of the corpus and a card of that article.
pub open spec fn valid_pick(articles: Seq<ArticleCardsView>, pick: (usize, usize)) -> bool {
    pick.0 < articles.len() && pick.1 < articles[pick.0 as int].cards.len()
}

/// The card `card` of article `art`, weighed by the bytes of its text.
pub open spec fn chosen_at(articles: Seq<ArticleCardsView>, art: int, card: int) -> ChosenView {
    ChosenView {
        title: articles[art].title,
        text: articles[art].cards[card],
        url: articles[art].url,
        domain: articles[art].domain,
        length: byte_len(articles[art].cards[card]) as usize,
        others: articles[art].cards.len() as usize,
    }
}

/// The cards that a list of picks names, in the order of the picks.
pub open spec fn chosen_all(articles: Seq<ArticleCardsView>, picks: Seq<(usize, usize)>) -> Seq<
    ChosenView,
> {
    Seq::new(picks.len(), |i: int| chosen_at(articles, picks[i].0 as int, picks[i].1 as int))
}

/// `x` put into a list that is ordered by falling length, behind every card
/// that is at least as long.
pub open spec fn insert_desc(sorted: Seq<ChosenView>, x: ChosenView) -> Seq<ChosenView>
    decreases sorted.len(),
{
    if sorted.len() == 0 || sorted.last().length >= x.length {
        sorted.push(x)
    } else {
        insert_desc(sorted.drop_last(), x).push(sorted.last())
    }
}

/// The cards ordered by falling length; cards of equal length keep the order
/// in which they were given.
pub open spec fn sort_desc(items: Seq<ChosenView>) -> Seq<ChosenView>
    decreases items.len(),
{
    if items.len() == 0 {
        Seq::<ChosenView>::empty()
    } else {
        insert_desc(sort_desc(items.drop_last()), items.last())
    }
}

/// Whether no card is followed by a longer one.
pub open spec fn falling(items: Seq<ChosenView>) -> bool {
    forall|i: int, j: int| 0 <= i < j < items.len() ==> items[i].length >= items[j].length
}

/// The lengths of the cards, in order.
pub open spec fn lengths_of(items: Seq<ChosenView>) -> Seq<usize> {
    Seq::new(items.len(), |i: int| items[i].length)
}

/// The sum of the first `k` lengths.
pub open spec fn prefix_sum(lengths: Seq<usize>, k: int) -> int
    decreases k,
{
    if k <= 0 {
        0
    } else {
        prefix_sum(lengths, k - 1) + lengths[k - 1]
    }
}

/// Half of the sum of all lengths, rounded down.
pub open spec fn half_of(lengths: Seq<usize>) -> int {
    prefix_sum(lengths, lengths.len() as int) / 2
}

/// Whether `b` is where the first column ends: the smallest number of
/// leading cards whose lengths add up to more than half of the total, or 0
/// when no number of leading cards does.
pub open spec fn is_break(lengths: Seq<usize>, b: int) -> bool {
    if b == 0 {
        forall|k: int| 1 <= k <= lengths.len() ==> prefix_sum(lengths, k) <= half_of(lengths)
    } else {
        &&& 1 <= b <= lengths.len()
        &&& prefix_sum(lengths, b) > half_of(lengths)
        &&& forall|k: int| 1 <= k < b ==> prefix_sum(lengths, k) <= half_of(lengths)
    }
}

/// The smallest `b` above `k` whose first `b` lengths add up to more than
/// `half`, or 0 when there is none.
pub open spec fn first_over(lengths: Seq<usize>, half: int, k: int) -> int
    decreases lengths.len() - k,
{
    if k >= lengths.len() {
        0
    } else if prefix_sum(lengths, k + 1) > half {
        k + 1
    } else {
        first_over(lengths, half, k + 1)
    }
}

/// Where the first column ends.
pub open spec fn break_index(lengths: Seq<usize>) -> int {
    first_over(lengths, half_of(lengths), 0)
}

/// The text of a card after the escape pass.
pub open spec fn sanitized(text: Seq<char>) -> Seq<char> {
    regex_replaced(QUOTE_ESCAPES@, text, QUOTE@)
}

/// The markup of one card around `shown`, the text as it is to be shown:
/// the title, the text, the number of cards of the article, and a link to the
/// article that reads as its domain.
pub open spec fn card_block_markup(c: ChosenView, shown: Seq<char>) -> Seq<char> {
    CARD_OPEN@ + c.title + TITLE_CLOSE@ + shown + COUNT_OPEN@ + decimal(c.others as nat)
        + COUNT_CLOSE@ + c.url + LINK_MIDDLE@ + c.domain + CARD_CLOSE@
}

/// The markup of one card: the card's block around its text after the escape
/// pass.
pub open spec fn card_markup(c: ChosenView) -> Seq<char> {
    card_block_markup(c, sanitized(c.text))
}

/// The markup of every card, in order.
pub open spec fn card_markups(items: Seq<ChosenView>) -> Seq<Seq<char>> {
    Seq::new(items.len(), |i: int| card_markup(items[i]))
}

/// Two column blocks: the first `b` cards in the first, the rest in the
/// second; all of them in the first where there are fewer than `b`.
pub open spec fn columns_markup(cards: Seq<Seq<char>>, b: int) -> Seq<char> {
    let first = if b <= cards.len() {
        b
    } else {
        cards.len() as int
    };
    COLUMN_OPEN@ + joined(cards.subrange(0, first), NOTHING@) + COLUMN_CLOSE@ + COLUMN_OPEN@
        + joined(cards.subrange(first, cards.len() as int), NOTHING@) + COLUMN_CLOSE@
}

/// The summary fragment for a list of picks: the picked cards ordered by
/// falling length, broken into two columns where the running length first
/// exceeds half of the total.
pub open spec fn summary_markup(articles: Seq<ArticleCardsView>, picks: Seq<(usize, usize)>) -> Seq<
    char,
> {
    let sorted = sort_desc(chosen_all(articles, picks));
    columns_markup(card_markups(sorted), break_index(lengths_of(sorted)))
}

/// Putting a card into a falling list keeps the list falling and adds
/// exactly that card.
pub proof fn lemma_insert_desc(sorted: Seq<ChosenView>, x: ChosenView)
    requires
        falling(sorted),
    ensures
        falling(insert_desc(sorted, x)),
        insert_desc(sorted, x).len() == sorted.len() + 1,
        insert_desc(sorted, x).to_multiset() == sorted.to_multiset().insert(x),
        forall|i: int|
            0 <= i < insert_desc(sorted, x).len() ==> (#[trigger] insert_desc(sorted, x)[i]).length
                >= x.length || (exists|j: int|
                0 <= j < sorted.len() && sorted[j] == insert_desc(sorted, x)[i]),
    decreases sorted.len(),
{
    broadcast use vstd::seq_lib::group_to_multiset_ensures;

    let r = insert_desc(sorted, x);
    if sorted.len() == 0 || sorted.last().length >= x.length {
        assert forall|i: int| 0 <= i < r.len() implies (#[trigger] r[i]).length >= x.length || (
        exists|j: int| 0 <= j < sorted.len() && sorted[j] == r[i]) by {
            if i < sorted.len() {
                assert(sorted[i] == r[i]);
            }
        }
    } else {
        let front = sorted.drop_last();
        let last = sorted.last();
        lemma_insert_desc(front, x);
        let inner = insert_desc(front, x);
        assert(sorted == front.push(last));
        assert(r.to_multiset() =~= sorted.to_multiset().insert(x));
        assert forall|i: int, j: int| 0 <= i < j < r.len() implies r[i].length >= r[j].length by {
            if j == r.len() - 1 {
                if inner[i].length >= x.length {
                } else {
                    let k = choose|k: int| 0 <= k < front.len() && front[k] == inner[i];
                    assert(sorted[k].length >= sorted[sorted.len() - 1].length);
                }
            }
        }
        assert forall|i: int| 0 <= i < r.len() implies (#[trigger] r[i]).length >= x.length || (
        exists|j: int| 0 <= j < sorted.len() && sorted[j] == r[i]) by {
            if i == r.len() - 1 {
                assert(sorted[sorted.len() - 1] == r[i]);
            } else if inner[i].length >= x.length {
            } else {
                let k = choose|k: int| 0 <= k < front.len() && front[k] == inner[i];
                assert(sorted[k] == r[i]);
            }
        }
    }
}

/// The ordered list holds the same cards as the list that was given, each as
/// often, and no card in it is followed by a longer one.
pub proof fn lemma_sort_desc(items: Seq<ChosenView>)
    ensures
        falling(sort_desc(items)),
        sort_desc(items).len() == items.len(),
        sort_desc(items).to_multiset() == items.to_multiset(),
    decreases items.len(),
{
    broadcast use vstd::seq_lib::group_to_multiset_ensures;

    if items.len() > 0 {
        lemma_sort_desc(items.drop_last());
        lemma_insert_desc(sort_desc(items.drop_last()), items.last());
        assert(items == items.drop_last().push(items.last()));
    }
}

/// A card goes into a falling list at the place behind which every card is
/// shorter and in front of which the nearest card is at least as long.
proof fn lemma_insert_position(sorted: Seq<ChosenView>, x: ChosenView, pos: int)
    requires
        0 <= pos <= sorted.len(),
        forall|j: int| pos <= j < sorted.len() ==> sorted[j].length < x.length,
        pos == 0 || sorted[pos - 1].length >= x.length,
    ensures
        insert_desc(sorted, x) == sorted.insert(pos, x),
    decreases sorted.len(),
{
    if pos == sorted.len() {
        assert(sorted.insert(pos, x) =~= sorted.push(x));
    } else {
        lemma_insert_position(sorted.drop_last(), x, pos);
        assert(sorted.insert(pos, x) =~= sorted.drop_last().insert(pos, x).push(sorted.last()));
    }
}

/// The sum of the first `k` lengths grows with `k` and stays under `k` times
/// the largest length there can be.
pub proof fn lemma_prefix_sum_bounds(lengths: Seq<usize>, k: int, m: int)
    requires
        0 <= k <= m <= lengths.len(),
    ensures
        0 <= prefix_sum(lengths, k) <= prefix_sum(lengths, m),
        prefix_sum(lengths, m) <= m * usize::MAX,
    decreases m,
{
    if m > 0 {
        if k < m {
            lemma_prefix_sum_bounds(lengths, k, m - 1);
        } else {
            lemma_prefix_sum_bounds(lengths, k - 1, m - 1);
        }
        assert((m - 1) * usize::MAX + usize::MAX == m * usize::MAX) by (nonlinear_arith);
    }
}

/// The break index is where the running length first exceeds half of the
/// total; it is 0 only when every length is 0.
pub proof fn lemma_break_index(lengths: Seq<usize>)
    ensures
        is_break(lengths, break_index(lengths)),
        prefix_sum(lengths, lengths.len() as int) > 0 ==> 1 <= break_index(lengths)
            <= lengths.len(),
{
    lemma_first_over(lengths, half_of(lengths), 0);
    lemma_prefix_sum_bounds(lengths, 0, lengths.len() as int);
    if prefix_sum(lengths, lengths.len() as int) > 0 {
        if break_index(lengths) == 0 {
            assert(lengths.len() > 0);
            assert(prefix_sum(lengths, lengths.len() as int) <= half_of(lengths));
        }
    }
}

proof fn lemma_first_over(lengths: Seq<usize>, half: int, k: int)
    requires
        0 <= k <= lengths.len(),
    ensures
        first_over(lengths, half, k) == 0 ==> forall|j: int|
            k < j <= lengths.len() ==> prefix_sum(lengths, j) <= half,
        first_over(lengths, half, k) != 0 ==> {
            &&& k < first_over(lengths, half, k) <= lengths.len()
            &&& prefix_sum(lengths, first_over(lengths, half, k)) > half
            &&& forall|j: int|
                k < j < first_over(lengths, half, k) ==> prefix_sum(lengths, j) <= half
        },
    decreases lengths.len() - k,
{
    if k < lengths.len() && prefix_sum(lengths, k + 1) <= half {
        lemma_first_over(lengths, half, k + 1);
    }
}

/// `Rng::gen_range` on the thread's generator, over `0..n`: some index below
/// `n`. Nothing is said of which one, and two calls may differ.
#[verifier::external_body]
fn random_below(n: usize) -> (r: usize)
    requires
        n > 0,
    ensures
        r < n,
{
    rand::thread_rng().gen_range(0..n)
}

/// The card `card` of article `art`, with its length in bytes and the number
/// of cards of its article; `None` where the corpus has no such card.
pub fn choose_card(articles: &Vec<ArticleCards>, art: usize, card: usize) -> (out: Option<Chosen>)
    ensures
        match out {
            Some(c) => valid_pick(corpus_view(articles@), (art, card)) && c@ == chosen_at(
                corpus_view(articles@),
                art as int,
                card as int,
            ),
            None => !valid_pick(corpus_view(articles@), (art, card)),
        },
{
    if art >= articles.len() {
        return None;
    }
    let article = &articles[art];
    if card >= article.cards.len() {
        return None;
    }
    let text = article.cards[card].clone();
    let length = text.as_str().as_bytes().len();
    let c = Chosen {
        title: article.title.clone(),
        text,
        url: article.url.clone(),
        domain: article.domain.clone(),
        length,
        others: article.cards.len(),
    };
    Some(c)
}

fn copy_chosen(c: &Chosen) -> (out: Chosen)
    ensures
        out@ == c@,
{
    Chosen {
        title: c.title.clone(),
        text: c.text.clone(),
        url: c.url.clone(),
        domain: c.domain.clone(),
        length: c.length,
        others: c.others,
    }
}

/// Orders the cards by falling length. Cards of equal length keep their
/// order.
pub fn sort_descending(items: &Vec<Chosen>) -> (out: Vec<Chosen>)
    ensures
        chosen_views(out@) == sort_desc(chosen_views(items@)),
        out.len() == items.len(),
        falling(chosen_views(out@)),
        chosen_views(out@).to_multiset() == chosen_views(items@).to_multiset(),
{
    let mut out: Vec<Chosen> = Vec::new();
    let mut i: usize = 0;
    assert(chosen_views(items@).take(0) =~= Seq::<ChosenView>::empty());
    assert(chosen_views(out@) =~= Seq::<ChosenView>::empty());
    while i < items.len()
        invariant
            i <= items.len(),
            out.len() == i,
            chosen_views(out@) == sort_desc(chosen_views(items@).take(i as int)),
        decreases items.len() - i,
    {
        let x = copy_chosen(&items[i]);
        let mut pos: usize = out.len();
        while pos > 0 && out[pos - 1].length < x.length
            invariant
                pos <= out.len(),
                forall|j: int| pos <= j < out.len() ==> out@[j].length < x.length,
            decreases pos,
        {
            pos -= 1;
        }
        proof {
            let before = chosen_views(out@);
            let all = chosen_views(items@);
            assert(all.take(i + 1).drop_last() == all.take(i as int));
            assert(all.take(i + 1).last() == x@);
            lemma_insert_position(before, x@, pos as int);
            assert(chosen_views(out@.insert(pos as int, x)) =~= before.insert(pos as int, x@));
        }
        out.insert(pos, x);
        i += 1;
    }
    proof {
        assert(chosen_views(items@).take(items.len() as int) == chosen_views(items@));
        lemma_sort_desc(chosen_views(items@));
    }
    out
}

/// Where the first column ends: the number of leading cards after which the
/// running length first exceeds half of the total length.
pub fn column_break(lengths: &Vec<usize>) -> (b: usize)
    ensures
        b == break_index(lengths@),
        is_break(lengths@, b as int),
        b <= lengths.len(),
{
    let n = lengths.len();
    let mut total: u128 = 0;
    let mut i: usize = 0;
    while i < n
        invariant
            n == lengths.len(),
            i <= n,
            total == prefix_sum(lengths@, i as int),
        decreases n - i,
    {
        proof {
            lemma_prefix_sum_bounds(lengths@, i as int, i + 1);
            assert((i + 1) * usize::MAX <= usize::MAX * usize::MAX) by (nonlinear_arith)
                requires
                    i + 1 <= usize::MAX,
            ;
            assert(usize::MAX * usize::MAX < u128::MAX) by (nonlinear_arith)
                requires
                    usize::MAX <= 0xffff_ffff_ffff_ffff,
                    u128::MAX == 0xffff_ffff_ffff_ffff_ffff_ffff_ffff_ffff,
            ;
        }
        total = total + lengths[i] as u128;
        i += 1;
    }
    let half: u128 = total / 2;
    let mut running: u128 = 0;
    let mut k: usize = 0;
    while k < n
        invariant
            n == lengths.len(),
            k <= n,
            half == half_of(lengths@),
            total == prefix_sum(lengths@, n as int),
            running == prefix_sum(lengths@, k as int),
            first_over(lengths@, half as int, 0) == first_over(lengths@, half as int, k as int),
        decreases n - k,
    {
        proof {
            lemma_prefix_sum_bounds(lengths@, k + 1, n as int);
        }
        running = running + lengths[k] as u128;
        if running > half {
            proof {
                lemma_break_index(lengths@);
            }
            return k + 1;
        }
        k += 1;
    }
    proof {
        lemma_break_index(lengths@);
    }
    0
}

/// The markup of one card. `None` exactly when the regex engine does not
/// accept the pattern of the escape pass.
pub fn render_card(c: &Chosen) -> (out: Option<String>)
    ensures
        out is Some <==> regex_accepted(QUOTE_ESCAPES@),
        out matches Some(s) ==> s@ == card_markup(c@),
{
    match replace_all(QUOTE_ESCAPES, c.text.as_str(), QUOTE) {
        None => None,
        Some(clean) => Some(card_block(c, clean.as_str())),
    }
}

/// The markup of one card around `shown`, the card's text as it is to be
/// shown.
pub fn card_block(c: &Chosen, shown: &str) -> (out: String)
    ensures
        out@ == card_block_markup(c@, shown@),
{
    let count = decimal_string(c.others);
    let mut s = String::from_str(CARD_OPEN);
    s.append(c.title.as_str());
    s.append(TITLE_CLOSE);
    s.append(shown);
    s.append(COUNT_OPEN);
    s.append(count.as_str());
    s.append(COUNT_CLOSE);
    s.append(c.url.as_str());
    s.append(LINK_MIDDLE);
    s.append(c.domain.as_str());
    s.append(CARD_CLOSE);
    s
}

fn copy_range(v: &Vec<String>, from: usize, to: usize) -> (out: Vec<String>)
    requires
        from <= to <= v.len(),
    ensures
        texts(out@) == texts(v@).subrange(from as int, to as int),
{
    let mut out: Vec<String> = Vec::new();
    let mut i: usize = from;
    while i < to
        invariant
            from <= i <= to <= v.len(),
            out@.len() == i - from,
            forall|j: int| 0 <= j < i - from ==> out@[j]@ == v@[from + j]@,
        decreases to - i,
    {
        out.push(v[i].clone());
        i += 1;
    }
    assert(texts(out@) =~= texts(v@).subrange(from as int, to as int));
    out
}

/// Two column blocks: the first `col_break` cards in the first, the rest in
/// the second; all of them in the first where there are fewer.
pub fn render_columns(cards: &Vec<String>, col_break: usize) -> (out: String)
    ensures
        out@ == columns_markup(texts(cards@), col_break as int),
{
    let first_len = if col_break <= cards.len() {
        col_break
    } else {
        cards.len()
    };
    let first = copy_range(cards, 0, first_len);
    let second = copy_range(cards, first_len, cards.len());
    let left = join(&first, NOTHING);
    let right = join(&second, NOTHING);
    let mut s = String::from_str(COLUMN_OPEN);
    s.append(left.as_str());
    s.append(COLUMN_CLOSE);
    s.append(COLUMN_OPEN);
    s.append(right.as_str());
    s.append(COLUMN_CLOSE);
    s
}

/// Whether every pick names a card of the corpus.
pub open spec fn all_valid(articles: Seq<ArticleCardsView>, picks: Seq<(usize, usize)>) -> bool {
    forall|i: int| 0 <= i < picks.len() ==> valid_pick(articles, #[trigger] picks[i])
}

/// The summary fragment for the given picks, each an article's index and a
/// card's index within it. `None` exactly when a pick names no card, or there
/// is a pick and the regex engine does not accept the pattern of the escape
/// pass.
pub fn summary_of(articles: &Vec<ArticleCards>, picks: &Vec<(usize, usize)>) -> (out: Option<
    String,
>)
    ensures
        out is Some <==> all_valid(corpus_view(articles@), picks@) && (picks.len() == 0
            || regex_accepted(QUOTE_ESCAPES@)),
        out matches Some(s) ==> s@ == summary_markup(corpus_view(articles@), picks@),
{
    let ghost corpus = corpus_view(articles@);
    let mut chosen: Vec<Chosen> = Vec::new();
    let mut i: usize = 0;
    while i < picks.len()
        invariant
            i <= picks.len(),
            chosen.len() == i,
            corpus == corpus_view(articles@),
            forall|j: int| 0 <= j < i ==> valid_pick(corpus, picks[j]),
            forall|j: int|
                0 <= j < i ==> chosen@[j]@ == chosen_at(corpus, picks[j].0 as int, picks[j].1 as int),
        decreases picks.len() - i,
    {
        match choose_card(articles, picks[i].0, picks[i].1) {
            None => {
                assert(!valid_pick(corpus, picks@[i as int]));
                return None;
            },
            Some(c) => {
                chosen.push(c);
            },
        }
        i += 1;
    }
    assert(chosen_views(chosen@) =~= chosen_all(corpus, picks@));
    assert(all_valid(corpus, picks@));
    let sorted = sort_descending(&chosen);
    let mut lengths: Vec<usize> = Vec::new();
    let mut cards: Vec<String> = Vec::new();
    let mut k: usize = 0;
    while k < sorted.len()
        invariant
            k <= sorted.len(),
            sorted.len() == picks.len(),
            all_valid(corpus_view(articles@), picks@),
            k > 0 ==> regex_accepted(QUOTE_ESCAPES@),
            lengths.len() == k,
            cards.len() == k,
            forall|j: int| 0 <= j < k ==> lengths@[j] == sorted@[j].length,
            forall|j: int| 0 <= j < k ==> cards@[j]@ == card_markup(sorted@[j]@),
        decreases sorted.len() - k,
    {
        lengths.push(sorted[k].length);
        match render_card(&sorted[k]) {
            None => {
                return None;
            },
            Some(markup) => {
                cards.push(markup);
            },
        }
        k += 1;
    }
    assert(lengths@ =~= lengths_of(chosen_views(sorted@)));
    assert(texts(cards@) =~= card_markups(chosen_views(sorted@)));
    let col_break = column_break(&lengths);
    Some(render_columns(&cards, col_break))
}

/// Whether every article of the corpus has a card.
pub open spec fn all_have_cards(articles: Seq<ArticleCardsView>) -> bool {
    forall|i: int| 0 <= i < articles.len() ==> (#[trigger] articles[i]).cards.len() > 0
}

/// Draws `count` picks at random: each draw takes an article of the corpus
/// and then a card of that article, so a card may be drawn more than once.
/// `None` when a draw is to be made and the corpus is empty or the drawn
/// article has no card.
pub fn draw_picks(articles: &Vec<ArticleCards>, count: usize) -> (out: Option<Vec<(usize, usize)>>)
    ensures
        out matches Some(picks) ==> picks.len() == count && forall|i: int|
            0 <= i < picks.len() ==> valid_pick(corpus_view(articles@), #[trigger] picks[i]),
        out is None ==> count > 0 && (articles.len() == 0 || !all_have_cards(
            corpus_view(articles@),
        )),
        count > 0 && articles.len() == 0 ==> out is None,
{
    let mut picks: Vec<(usize, usize)> = Vec::new();
    let mut i: usize = 0;
    while i < count
        invariant
            i <= count,
            picks.len() == i,
            i > 0 ==> articles.len() > 0,
            forall|j: int| 0 <= j < i ==> valid_pick(corpus_view(articles@), #[trigger] picks[j]),
        decreases count - i,
    {
        if articles.len() == 0 {
            return None;
        }
        let art = random_below(articles.len());
        let cards = articles[art].cards.len();
        if cards == 0 {
            assert(corpus_view(articles@)[art as int].cards.len() == 0);
            return None;
        }
        let card = random_below(cards);
        picks.push((art, card));
        i += 1;
    }
    Some(picks)
}

/// The summary fragment for `DISPLAY` cards drawn at random. There is one
/// whenever the corpus has an article, every article has a card and the
/// regex engine accepts the pattern of the escape pass. `None` when the
/// corpus is empty, when a drawn article has no card, or when the engine does
/// not accept that pattern.
pub fn random_summary(articles: &Vec<ArticleCards>) -> (out: Option<String>)
    ensures
        articles.len() > 0 && all_have_cards(corpus_view(articles@)) && regex_accepted(
            QUOTE_ESCAPES@,
        ) ==> out is Some,
        articles.len() == 0 || !regex_accepted(QUOTE_ESCAPES@) ==> out is None,
        out matches Some(s) ==> exists|picks: Seq<(usize, usize)>|
            {
                &&& picks.len() == DISPLAY
                &&& all_valid(corpus_view(articles@), picks)
                &&& s@ == summary_markup(corpus_view(articles@), picks)
            },
{
    match draw_picks(articles, DISPLAY) {
        None => None,
        Some(picks) => summary_of(articles, &picks),
    }
}

} // verus!
