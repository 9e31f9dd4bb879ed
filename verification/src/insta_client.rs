use vstd::prelude::*;
use crate::text::split;
use crate::text::split_seq;
use crate::text::texts;

verus! {

/// The key under which the provider grants the token.
pub const TOKEN_KEY: &'static str = "oauth_token";

/// The key under which the provider grants the token's secret.
pub const TOKEN_SECRET: &'static str = "oauth_token_secret";

/// What is reported when the provider's answer grants no token.
pub const NO_TOKENS: &'static str = "Tokens not returned from API";

/// The credentials of a session with the provider: the consumer's key and
/// secret and, once the provider has granted them, the token's.
pub struct Client {
    pub consumer_key: String,
    pub consumer_secret: String,
    pub token_key: Option<String>,
    pub token_secret: Option<String>,
}

/// Why no session could be opened.
#[derive(Debug, Clone, Default, PartialEq, Eq)]
pub struct ClientError {
    pub error: String,
}

/// What the provider lists for a folder: the bookmarks, the user, and the
/// highlights made in those bookmarks.
#[derive(Debug, Clone, Default)]
pub struct List {
    pub bookmarks: Vec<Bookmark>,
    pub user: User,
    pub highlights: Vec<Highlight>,
    pub delete_ids: Vec<i64>,
}

/// A passage that the user marked in a bookmarked article.
#[derive(Debug, Clone, Default, PartialEq, Eq)]
pub struct Highlight {
    pub highlight_id: i64,
    pub bookmark_id: i64,
    pub text: String,
    pub note: Option<String>,
    pub time: i64,
    pub position: i64,
    pub kind: String,
}

/// A saved article. The provider gives its two timestamps as numbers with a
/// fraction; the record carries each as the 64 bits of that number, so that
/// nothing of it is lost on the way through.
#[derive(Debug, Clone, Default, PartialEq, Eq)]
pub struct Bookmark {
    pub title: String,
    pub hash: String,
    pub bookmark_id: i64,
    pub progress_timestamp: u64,
    pub description: String,
    pub url: String,
    pub time: u64,
    pub starred: String,
    pub kind: String,
    pub private_source: String,
}

/// The account that the list belongs to.
#[derive(Debug, Clone, Default, PartialEq, Eq)]
pub struct User {
    pub username: String,
    pub user_id: i64,
    pub kind: String,
    pub subscription: String,
}

/// The raw markup of one bookmarked article.
#[derive(Debug, Clone, Default, PartialEq, Eq)]
pub struct Article {
    pub bookmark_id: i64,
    pub text: String,
}

impl List {
    /// Takes over the bookmarks and the highlights of another list, behind
    /// its own. The user and the ids to delete stay as they are.
    pub fn absorb(&mut self, other: List)
        ensures
            final(self).bookmarks@ == old(self).bookmarks@ + other.bookmarks@,
            final(self).highlights@ == old(self).highlights@ + other.highlights@,
            final(self).user == old(self).user,
            final(self).delete_ids == old(self).delete_ids,
    {
        let List { bookmarks, user: _, highlights, delete_ids: _ } = other;
        let mut bookmarks = bookmarks;
        let mut highlights = highlights;
        self.bookmarks.append(&mut bookmarks);
        self.highlights.append(&mut highlights);
    }
}

/// What stands between the pairs of the provider's answer.
pub open spec fn pair_separators() -> Seq<char> {
    seq!['&']
}

/// What stands between the parts of a pair.
pub open spec fn part_separators() -> Seq<char> {
    seq!['=']
}

/// The text of a string that may be missing.
pub open spec fn text_of(s: Option<String>) -> Option<Seq<char>> {
    match s {
        Some(text) => Some(text@),
        None => None,
    }
}

/// The value that the pairs give for `key`: the second part of the last
/// pair whose first part is `key`. A pair without a second part gives
/// nothing.
pub open spec fn granted(pairs: Seq<Seq<char>>, key: Seq<char>) -> Option<Seq<char>>
    decreases pairs.len(),
{
    if pairs.len() == 0 {
        None
    } else {
        let parts = split_seq(pairs.last(), part_separators().to_set());
        if parts.len() >= 2 && parts[0] == key {
            Some(parts[1])
        } else {
            granted(pairs.drop_last(), key)
        }
    }
}

/// The value that the provider's answer gives for `key`.
pub open spec fn response_value(response: Seq<char>, key: Seq<char>) -> Option<Seq<char>> {
    granted(split_seq(response, pair_separators().to_set()), key)
}

/// The value that the provider's answer gives for `key`, if it gives one.
pub fn value_in_response(response: &str, key: &str) -> (value: Option<String>)
    ensures
        text_of(value) == response_value(response@, key@),
{
    let mut ampersand: Vec<char> = Vec::new();
    ampersand.push('&');
    assert(ampersand@ =~= pair_separators());
    let mut equals: Vec<char> = Vec::new();
    equals.push('=');
    assert(equals@ =~= part_separators());
    let wanted = String::from_str(key);
    let pairs = split(response, &ampersand);
    let mut value: Option<String> = None;
    let mut i: usize = 0;
    assert(texts(pairs@).take(0) =~= Seq::<Seq<char>>::empty());
    while i < pairs.len()
        invariant
            i <= pairs.len(),
            wanted@ == key@,
            equals@ == part_separators(),
            text_of(value) == granted(texts(pairs@).take(i as int), key@),
        decreases pairs.len() - i,
    {
        proof {
            let t = texts(pairs@);
            assert(t.take(i + 1).drop_last() == t.take(i as int));
            assert(t.take(i + 1).last() == pairs@[i as int]@);
        }
        let parts = split(pairs[i].as_str(), &equals);
        if parts.len() >= 2 && parts[0] == wanted {
            assert(texts(parts@)[0] == parts@[0]@);
            assert(texts(parts@)[1] == parts@[1]@);
            value = Some(parts[1].clone());
        } else {
            if parts.len() >= 2 {
                assert(texts(parts@)[0] == parts@[0]@);
            }
        }
        i += 1;
    }
    assert(texts(pairs@).take(pairs.len() as int) == texts(pairs@));
    value
}

/// The session that the provider's answer to a request for a token opens:
/// the consumer's credentials with the token and the secret that the answer
/// grants. Without a token in the answer there is no session.
pub fn client_from_response(consumer_key: &str, consumer_secret: &str, response: &str) -> (out:
    Result<Client, ClientError>)
    ensures
        match out {
            Ok(client) => {
                &&& client.consumer_key@ == consumer_key@
                &&& client.consumer_secret@ == consumer_secret@
                &&& response_value(response@, TOKEN_KEY@) is Some
                &&& text_of(client.token_key) == response_value(response@, TOKEN_KEY@)
                &&& text_of(client.token_secret) == response_value(response@, TOKEN_SECRET@)
            },
            Err(e) => response_value(response@, TOKEN_KEY@) is None && e.error@ == NO_TOKENS@,
        },
{
    let token_key = value_in_response(response, TOKEN_KEY);
    let token_secret = value_in_response(response, TOKEN_SECRET);
    if token_key.is_none() {
        Err(ClientError { error: String::from_str(NO_TOKENS) })
    } else {
        Ok(
            Client {
                consumer_key: String::from_str(consumer_key),
                consumer_secret: String::from_str(consumer_secret),
                token_key,
                token_secret,
            },
        )
    }
}

} // verus!
