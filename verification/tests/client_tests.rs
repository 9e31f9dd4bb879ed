use instapaper::insta_client::{client_from_response, value_in_response};

#[test]
fn session_takes_token_and_secret_from_the_answer() {
    let client = client_from_response("ck", "cs", "oauth_token=abc&oauth_token_secret=xyz").unwrap();
    assert_eq!(client.consumer_key, "ck");
    assert_eq!(client.consumer_secret, "cs");
    assert_eq!(client.token_key, Some("abc".to_string()));
    assert_eq!(client.token_secret, Some("xyz".to_string()));
}

#[test]
fn session_reads_pairs_in_any_order() {
    let client = client_from_response("ck", "cs", "oauth_token_secret=xyz&other=1&oauth_token=abc")
        .unwrap();
    assert_eq!(client.token_key, Some("abc".to_string()));
    assert_eq!(client.token_secret, Some("xyz".to_string()));
}

#[test]
fn session_without_secret_still_opens() {
    let client = client_from_response("ck", "cs", "oauth_token=abc").unwrap();
    assert_eq!(client.token_key, Some("abc".to_string()));
    assert_eq!(client.token_secret, None);
}

#[test]
fn answer_without_token_opens_no_session() {
    let err = client_from_response("ck", "cs", "oauth_token_secret=xyz&error=denied").err().unwrap();
    assert_eq!(err.error, "Tokens not returned from API");
}

#[test]
fn empty_answer_opens_no_session() {
    let err = client_from_response("ck", "cs", "").err().unwrap();
    assert_eq!(err.error, "Tokens not returned from API");
}

#[test]
fn value_is_the_second_part_of_the_pair() {
    assert_eq!(value_in_response("a=1&b=2=3", "b"), Some("2".to_string()));
    assert_eq!(value_in_response("a=1&b=2", "a"), Some("1".to_string()));
    assert_eq!(value_in_response("a=&b=2", "a"), Some("".to_string()));
}

#[test]
fn pair_without_value_gives_nothing() {
    assert_eq!(value_in_response("a&b=2", "a"), None);
    assert_eq!(value_in_response("", "a"), None);
}

#[test]
fn last_pair_with_the_key_counts() {
    assert_eq!(value_in_response("a=1&a=2", "a"), Some("2".to_string()));
    assert_eq!(value_in_response("a=1&a", "a"), Some("1".to_string()));
}

#[test]
fn key_must_match_exactly() {
    assert_eq!(value_in_response("oauth_token_secret=xyz", "oauth_token"), None);
}
