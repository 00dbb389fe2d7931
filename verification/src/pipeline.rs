//! The ingestion pipeline: orchestrates fetched content, title derivation
//! and the stash upsert for the "add URL" use case, and the find-and-archive
//! step for the "read URL" use case.
//!
//! Fetching itself is transport work and stays outside the core: the
//! pipeline takes the fetch outcomes as arguments and states what it does
//! for every possible outcome. A fetch failure aborts an add; a title
//! extraction failure never does — it degrades to the placeholder title.

use vstd::prelude::*;

use crate::data::DataManager;
use crate::data::Entry;
use crate::data::User;
use crate::error::Error;
use crate::title::getTitle;
use crate::title::getTitleForTweet;
use crate::title::is_tweet;
use crate::title::isTweet;
use crate::title::oembed_html_of;
use crate::title::title_of;
use crate::title::tweet_text_of;

verus! {

/// The title recorded when no title can be derived.
pub open spec fn placeholder_title() -> Seq<char> {
    "(No title)"@
}

/// The literal placeholder title.
pub fn placeholderTitle() -> (r: String)
    ensures
        r@ == placeholder_title(),
{
    "(No title)".to_owned()
}

/// The browser identity sent with every outgoing fetch, to avoid
/// bot-blocking by origin servers.
pub fn userAgent() -> (r: &'static str)
    ensures
        r@ == "Mozilla/5.0 (X11; Linux i686; rv:98.0) Gecko/20100101 Firefox/98.0"@,
{
    "Mozilla/5.0 (X11; Linux i686; rv:98.0) Gecko/20100101 Firefox/98.0"
}

/// Whether a fetch response status is the one success the pipeline accepts.
pub fn statusIsSuccess(status: u16) -> (r: bool)
    ensures
        r <==> status == 200,
{
    status == 200
}

/// The oEmbed endpoint query for a tweet URL.
pub fn oembedQueryURL(uri: &str) -> (r: String)
    ensures
        r@ == "https://publish.twitter.com/oembed?url="@ + uri@,
{
    let base = String::from_str("https://publish.twitter.com/oembed?url=");
    base.concat(uri)
}

/// The title an add derives. For a tweet URL, the social-embed strategy on
/// the oEmbed response (`oembed`), falling back to the placeholder when that
/// response is absent, does not parse, or does not match. For every other
/// URL, the generic HTML strategy on the fetched body, with the same
/// fallback.
pub open spec fn derived_title(uri: Seq<char>, body: Seq<char>, oembed: Option<Seq<char>>) -> Seq<
    char,
> {
    if is_tweet(uri) {
        match oembed {
            Some(ob) => match oembed_html_of(ob) {
                Some(h) => match tweet_text_of(h) {
                    Some(t) => t,
                    None => placeholder_title(),
                },
                None => placeholder_title(),
            },
            None => placeholder_title(),
        }
    } else {
        match title_of(body) {
            Some(t) => t,
            None => placeholder_title(),
        }
    }
}

/// The add pipeline, given the transport's fetch outcomes: derive a title
/// per the URL's strategy, build the entry with `time_add = now`, and upsert
/// it into `user`'s stash partition.
///
/// `fetch_result` is the page fetch's outcome; an `Err` aborts the whole add
/// with a fetch error and an untouched store. `oembed_body` is the oEmbed
/// endpoint response for tweet URLs, when that second fetch succeeded; it is
/// ignored for generic URLs.
pub fn addURL(
    dm: &mut DataManager,
    user: &User,
    uri: String,
    fetch_result: Result<String, String>,
    oembed_body: Option<String>,
    now: i64,
) -> (r: Result<Entry, Error>)
    requires
        old(dm).wf(),
    ensures
        final(dm).wf(),
        fetch_result is Err ==> (r matches Err(e) && e is Fetch) && *final(dm) == *old(dm),
        fetch_result is Ok && !old(dm).connected() ==> (r matches Err(Error::PoolUnavailable))
            && *final(dm) == *old(dm),
        fetch_result is Ok && old(dm).connected() && !old(dm).hasUser(user.id as int) ==> (
        r matches Err(e) && e is Storage) && *final(dm) == *old(dm),
        fetch_result matches Ok(body) ==> old(dm).connected() && old(dm).hasUser(user.id as int)
            ==> (r matches Ok(en) && {
            &&& en.uri@ == uri@
            &&& en.time_add == now
            &&& en.title@ == derived_title(
                uri@,
                body@,
                match oembed_body {
                    Some(ob) => Some(ob@),
                    None => None,
                },
            )
            &&& DataManager::upsert_post(*old(dm), *final(dm), user.id as int, en@)
        }),
{
    let body = match fetch_result {
        Ok(b) => b,
        Err(m) => {
            return Err(Error::Fetch(m));
        },
    };
    let title: String = if isTweet(uri.as_str()) {
        match oembed_body {
            Some(ob) => match getTitleForTweet(ob.as_str()) {
                Some(t) => t,
                None => placeholderTitle(),
            },
            None => placeholderTitle(),
        }
    } else {
        match getTitle(body.as_str()) {
            Some(t) => t,
            None => placeholderTitle(),
        }
    };
    let entry = Entry { uri: uri, title: title, time_add: now };
    let stored = entry.clone();
    match dm.addEntry(user, stored) {
        Ok(()) => Ok(entry),
        Err(e) => Err(e),
    }
}

/// The read pipeline: look the URI up in `user`'s stash partition and move
/// the found entry into the archive, stamping `time_read = now`, as one
/// atomic step. A URI that is not stashed is a storage error and leaves the
/// store untouched.
pub fn readURL(dm: &mut DataManager, user: &User, uri: &str, now: i64) -> (r: Result<Entry, Error>)
    requires
        old(dm).wf(),
    ensures
        final(dm).wf(),
        !old(dm).connected() ==> (r matches Err(Error::PoolUnavailable)) && *final(dm) == *old(dm),
        old(dm).connected() && !old(dm).hasUser(user.id as int) ==> (r matches Err(e)
            && e is Storage) && *final(dm) == *old(dm),
        old(dm).connected() && old(dm).hasUser(user.id as int) && !old(dm).stashMap().contains_key(
            (user.id as int, uri@),
        ) ==> (r matches Err(e) && e is Storage) && *final(dm) == *old(dm),
        old(dm).connected() && old(dm).hasUser(user.id as int) && old(dm).stashMap().contains_key(
            (user.id as int, uri@),
        ) ==> (r matches Ok(en) && {
            &&& en.uri@ == uri@
            &&& (en.title@, en.time_add as int) == old(dm).stashMap()[(user.id as int, uri@)]
            &&& DataManager::move_post(*old(dm), *final(dm), user.id as int, en@, now as int)
        }),
{
    match dm.findEntryByURI(user, uri) {
        Err(e) => Err(e),
        Ok(None) => Err(Error::Storage("entry not found".to_owned())),
        Ok(Some(entry)) => {
            match dm.readEntryAt(user, &entry, now) {
                Ok(()) => Ok(entry),
                Err(e) => Err(e),
            }
        },
    }
}

} // verus!
