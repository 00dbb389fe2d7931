use stash::title::classify;
use stash::title::getTitle;
use stash::title::getTitleForTweet;
use stash::title::isTweet;
use stash::title::trimString;
use stash::title::tweetTextFromEmbed;
use stash::title::UrlKind;

#[test]
fn title_between_markers_is_trimmed() {
    let body = "<html><title> Example Title </title></html>";
    assert_eq!(getTitle(body).unwrap(), "Example Title");
}

#[test]
fn missing_markers_yield_no_title() {
    assert!(getTitle("<html><body>plain</body></html>").is_none());
    assert!(getTitle("<html><title>never closed</html>").is_none());
    assert!(getTitle("</title>backwards<title>").is_none());
    assert!(getTitle("").is_none());
}

#[test]
fn first_markers_win() {
    let body = "<title>one</title><title>two</title>";
    assert_eq!(getTitle(body).unwrap(), "one");
}

#[test]
fn trimming_strips_ascii_whitespace() {
    assert_eq!(trimString("  \t hello world \r\n"), "hello world");
    assert_eq!(trimString("unpadded"), "unpadded");
    assert_eq!(trimString(" \t\r\n "), "");
}

#[test]
fn tweet_urls_classify_as_social_embed() {
    assert!(isTweet("https://twitter.com/someuser/status/12345"));
    assert!(isTweet("http://twitter.com/someuser/status/12345"));
    assert!(isTweet("https://www.twitter.com/someuser/status/12345"));
    assert!(matches!(
        classify("https://twitter.com/someuser/status/12345"),
        UrlKind::SocialEmbed
    ));
}

#[test]
fn generic_urls_classify_as_generic() {
    assert!(!isTweet("https://example.com/article"));
    assert!(!isTweet("https://twitter.com/someuser"));
    assert!(!isTweet("https://twitter.com//status/1"));
    assert!(!isTweet("ftp://twitter.com/someuser/status/1"));
    assert!(matches!(
        classify("https://example.com/article"),
        UrlKind::GenericHTML
    ));
}

#[test]
fn embed_fragment_yields_first_paragraph() {
    let fragment = "<blockquote class=\"tweet\"><p lang=\"en\">Hello, world!</p>\
                    &mdash; someone <a href=\"x\">link</a></blockquote>";
    assert_eq!(tweetTextFromEmbed(fragment).unwrap(), "Hello, world!");
}

#[test]
fn malformed_embed_fragment_yields_nothing() {
    assert!(tweetTextFromEmbed("<p>no blockquote</p>").is_none());
    assert!(tweetTextFromEmbed("<blockquote><p>unclosed").is_none());
    assert!(tweetTextFromEmbed("<blockquote><p></p></blockquote>").is_none());
}

#[test]
fn oembed_response_yields_tweet_text() {
    let body = "{\"url\":\"https://twitter.com/u/status/1\",\
                \"html\":\"<blockquote><p>A short tweet.</p><a>x</a></blockquote>\"}";
    assert_eq!(getTitleForTweet(body).unwrap(), "A short tweet.");
}

#[test]
fn bad_oembed_responses_yield_nothing() {
    assert!(getTitleForTweet("not json at all").is_none());
    assert!(getTitleForTweet("{\"no_html\":1}").is_none());
    assert!(getTitleForTweet("{\"html\":42}").is_none());
    assert!(getTitleForTweet("{\"html\":\"<div>no blockquote</div>\"}").is_none());
}
