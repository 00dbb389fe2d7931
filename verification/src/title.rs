//! Title derivation from fetched remote content.
//!
//! Two strategies exist, selected by the shape of the submitted URL. The
//! generic HTML strategy takes the trimmed text between the first literal
//! `<title>` and `</title>` markers. The social-embed strategy takes the
//! first paragraph's inner content out of an embed fragment, which itself
//! comes out of the "html" member of an oEmbed response document. Either
//! strategy may yield nothing; extraction failure is never fatal.

use vstd::prelude::*;

verus! {

/// Whether `needle` occurs in `hay` starting at position `i`.
pub open spec fn match_at(hay: Seq<char>, needle: Seq<char>, i: int) -> bool {
    0 <= i && i + needle.len() <= hay.len() && hay.subrange(i, i + needle.len()) == needle
}

/// The position of the first occurrence of `needle` in `hay` at or after
/// `i`, if there is one.
pub open spec fn first_match_from(hay: Seq<char>, needle: Seq<char>, i: int) -> Option<int>
    decreases hay.len() - i,
    when 0 <= i
{
    if i + needle.len() > hay.len() {
        None
    } else if match_at(hay, needle, i) {
        Some(i)
    } else if i < hay.len() {
        first_match_from(hay, needle, i + 1)
    } else {
        None
    }
}

/// The ASCII whitespace that title trimming strips.
pub open spec fn is_space(c: char) -> bool {
    c == ' ' || c == '\t' || c == '\n' || c == '\r'
}

pub closed spec fn trim_front(s: Seq<char>) -> Seq<char>
    decreases s.len(),
{
    if s.len() > 0 && is_space(s[0]) {
        trim_front(s.drop_first())
    } else {
        s
    }
}

pub closed spec fn trim_back(s: Seq<char>) -> Seq<char>
    decreases s.len(),
{
    if s.len() > 0 && is_space(s.last()) {
        trim_back(s.drop_last())
    } else {
        s
    }
}

/// `s` with leading and trailing ASCII whitespace stripped.
pub open spec fn trimmed(s: Seq<char>) -> Seq<char> {
    trim_back(trim_front(s))
}

/// The generic HTML strategy: the text between the first `<title>` and the
/// first `</title>`, trimmed. A missing marker — or a closing marker that
/// ends before the opening marker's text begins — yields no title.
pub open spec fn title_of(h: Seq<char>) -> Option<Seq<char>> {
    let b = first_match_from(h, "<title>"@, 0);
    let e = first_match_from(h, "</title>"@, 0);
    if b is Some && e is Some && b.unwrap() + 7 <= e.unwrap() {
        Some(trimmed(h.subrange(b.unwrap() + 7, e.unwrap())))
    } else {
        None
    }
}

fn is_space_exec(c: char) -> (r: bool)
    ensures
        r == is_space(c),
{
    c == ' ' || c == '\t' || c == '\n' || c == '\r'
}

/// Whether `needle` occurs in `hay` at position `i`.
#[verifier::loop_isolation(false)]
fn matchAt(hay: &str, needle: &str, i: usize) -> (r: bool)
    requires
        i + needle@.len() <= hay@.len(),
        hay@.len() <= usize::MAX,
    ensures
        r == match_at(hay@, needle@, i as int),
{
    let n = needle.unicode_len();
    let mut k: usize = 0;
    while k < n
        invariant
            k <= n,
            forall|j: int| 0 <= j < k ==> hay@[i + j] == needle@[j],
        decreases n - k,
    {
        if hay.get_char(i + k) != needle.get_char(k) {
            proof {
                if match_at(hay@, needle@, i as int) {
                    assert(hay@.subrange(i as int, i + needle@.len())[k as int] == needle@[
                        k as int
                    ]);
                }
            }
            return false;
        }
        k += 1;
    }
    proof {
        assert(hay@.subrange(i as int, i + needle@.len()) =~= needle@);
    }
    true
}

/// The first occurrence of `needle` in `hay` at or after `from`.
#[verifier::loop_isolation(false)]
fn findFrom(hay: &str, needle: &str, from: usize) -> (r: Option<usize>)
    requires
        from <= hay@.len(),
    ensures
        match r {
            Some(i) => first_match_from(hay@, needle@, from as int) == Some(i as int),
            None => first_match_from(hay@, needle@, from as int) is None,
        },
{
    let h = hay.unicode_len();
    let n = needle.unicode_len();
    if n == 0 {
        proof {
            assert(hay@.subrange(from as int, from as int) =~= needle@);
        }
        return Some(from);
    }
    let mut i = from;
    while h - i >= n
        invariant
            from <= i <= h,
            n >= 1,
            first_match_from(hay@, needle@, from as int) == first_match_from(
                hay@,
                needle@,
                i as int,
            ),
        decreases h - i,
    {
        if matchAt(hay, needle, i) {
            return Some(i);
        }
        i += 1;
    }
    None
}

/// The text between the first `<title>` and the first `</title>` of the
/// fetched body, trimmed; `None` when no title can be derived.
#[verifier::loop_isolation(false)]
pub fn getTitle(html: &str) -> (r: Option<String>)
    ensures
        r matches Some(t) ==> title_of(html@) == Some(t@),
        r is None ==> title_of(html@) is None,
{
    proof {
        reveal_strlit("<title>");
        reveal_strlit("</title>");
    }
    let len = html.unicode_len();
    let b = match findFrom(html, "<title>", 0) {
        Some(b) => b,
        None => {
            return None;
        },
    };
    let e = match findFrom(html, "</title>", 0) {
        Some(e) => e,
        None => {
            return None;
        },
    };
    proof {
        assert(match_at(html@, "<title>"@, b as int)) by {
            lemma_first_match_is_match(html@, "<title>"@, 0, b as int);
        }
        assert(match_at(html@, "</title>"@, e as int)) by {
            lemma_first_match_is_match(html@, "</title>"@, 0, e as int);
        }
    }
    if e < b + 7 {
        return None;
    }
    let inner = html.substring_char(b + 7, e);
    Some(trimString(inner))
}

/// A found first match is a match within bounds.
proof fn lemma_first_match_is_match(hay: Seq<char>, needle: Seq<char>, from: int, i: int)
    requires
        0 <= from <= hay.len(),
        first_match_from(hay, needle, from) == Some(i),
    ensures
        match_at(hay, needle, i),
        from <= i,
    decreases hay.len() - from,
{
    if from + needle.len() > hay.len() {
    } else if match_at(hay, needle, from) {
    } else if from < hay.len() {
        lemma_first_match_is_match(hay, needle, from + 1, i);
    }
}

/// `s` with leading and trailing ASCII whitespace stripped.
#[verifier::loop_isolation(false)]
pub fn trimString(s: &str) -> (r: String)
    ensures
        r@ == trimmed(s@),
{
    let len = s.unicode_len();
    proof {
        assert(s@.subrange(0, len as int) =~= s@);
    }
    let mut lo: usize = 0;
    while lo < len && is_space_exec(s.get_char(lo))
        invariant
            lo <= len,
            trim_front(s@) == trim_front(s@.subrange(lo as int, len as int)),
        decreases len - lo,
    {
        proof {
            assert(s@.subrange(lo as int, len as int).drop_first() =~= s@.subrange(
                lo as int + 1,
                len as int,
            ));
        }
        lo += 1;
    }
    proof {
        let sub = s@.subrange(lo as int, len as int);
        if lo < len {
            assert(sub[0] == s@[lo as int]);
        } else {
            assert(sub =~= Seq::<char>::empty());
        }
        assert(trim_front(s@) == sub);
    }
    let mut hi: usize = len;
    while hi > lo && is_space_exec(s.get_char(hi - 1))
        invariant
            lo <= hi <= len,
            trim_back(s@.subrange(lo as int, len as int)) == trim_back(
                s@.subrange(lo as int, hi as int),
            ),
        decreases hi,
    {
        proof {
            assert(s@.subrange(lo as int, hi as int).drop_last() =~= s@.subrange(
                lo as int,
                hi as int - 1,
            ));
        }
        hi -= 1;
    }
    proof {
        let sub = s@.subrange(lo as int, hi as int);
        if hi > lo {
            assert(sub.last() == s@[hi as int - 1]);
        } else {
            assert(sub =~= Seq::<char>::empty());
        }
        assert(trim_back(sub) == sub);
        assert(trimmed(s@) == sub);
    }
    s.substring_char(lo, hi).to_owned()
}


/// Where the host begins for a scheme starting at `i`: after "https://" or
/// "http://"; `None` when neither scheme starts there.
pub open spec fn host_start(s: Seq<char>, i: int) -> Option<int> {
    if match_at(s, "https://"@, i) {
        Some(i + 8)
    } else if match_at(s, "http://"@, i) {
        Some(i + 7)
    } else {
        None
    }
}

/// The position after an optional "www." at `p`.
pub open spec fn after_www(s: Seq<char>, p: int) -> int {
    if match_at(s, "www."@, p) {
        p + 4
    } else {
        p
    }
}

/// A tweet URL shape begins at `i`: an http or https scheme, an optional
/// "www.", the host "twitter.com/", one nonempty path segment without '/',
/// then "/status/" (what follows, the status id, may be anything or empty).
pub open spec fn tweet_at(s: Seq<char>, i: int) -> bool {
    match host_start(s, i) {
        Some(h) => {
            let p = after_www(s, h);
            &&& match_at(s, "twitter.com/"@, p)
            &&& exists|d: int|
                p + 12 < d && (forall|k: int| p + 12 <= k < d ==> s[k] != '/')
                    && #[trigger] match_at(s, "/status/"@, d)
        },
        None => false,
    }
}

/// Whether the text holds a tweet-shaped URL anywhere in it.
pub open spec fn is_tweet(s: Seq<char>) -> bool {
    exists|i: int| #[trigger] tweet_at(s, i)
}

/// Whether a tweet URL shape begins at position `i`.
#[verifier::loop_isolation(false)]
fn tweetAt(uri: &str, i: usize) -> (r: bool)
    requires
        i <= uri@.len(),
    ensures
        r == tweet_at(uri@, i as int),
{
    proof {
        reveal_strlit("https://");
        reveal_strlit("http://");
        reveal_strlit("www.");
        reveal_strlit("twitter.com/");
        reveal_strlit("/status/");
    }
    let len = uri.unicode_len();
    let hs: usize;
    if len - i >= 8 && matchAt(uri, "https://", i) {
        hs = i + 8;
    } else if len - i >= 7 && matchAt(uri, "http://", i) {
        hs = i + 7;
    } else {
        return false;
    }
    let p = if len - hs >= 4 && matchAt(uri, "www.", hs) {
        hs + 4
    } else {
        hs
    };
    proof {
        assert(p as int == after_www(uri@, hs as int));
    }
    if !(len - p >= 12 && matchAt(uri, "twitter.com/", p)) {
        return false;
    }
    let q = p + 12;
    let mut d = q;
    while d < len && uri.get_char(d) != '/'
        invariant
            q <= d <= len,
            forall|k: int| q <= k < d ==> uri@[k] != '/',
        decreases len - d,
    {
        d += 1;
    }
    if d == q || d == len {
        proof {
            assert forall|d2: int|
                q < d2 && (forall|k: int| q <= k < d2 ==> uri@[k] != '/') implies !match_at(
                uri@,
                "/status/"@,
                d2,
            ) by {
                if match_at(uri@, "/status/"@, d2) {
                    assert(uri@.subrange(d2, d2 + 8)[0] == '/');
                    assert(uri@[d2] == '/');
                    if d == q {
                        if (q as int) < uri@.len() {
                            assert(uri@[q as int] == '/');
                            assert(uri@[q as int] != '/');
                        } else {
                            assert(d2 + 8 <= uri@.len());
                        }
                    } else {
                        assert(d2 < uri@.len());
                        assert(uri@[d2] != '/');
                    }
                }
            }
        }
        return false;
    }
    // uri@[d] == '/', q < d < len, and no '/' stands in [q, d)
    if len - d >= 8 && matchAt(uri, "/status/", d) {
        proof {
            assert(q < d as int && (forall|k: int| q <= k < d ==> uri@[k] != '/') && match_at(
                uri@,
                "/status/"@,
                d as int,
            ));
        }
        true
    } else {
        proof {
            assert forall|d2: int|
                q < d2 && (forall|k: int| q <= k < d2 ==> uri@[k] != '/') implies !match_at(
                uri@,
                "/status/"@,
                d2,
            ) by {
                if match_at(uri@, "/status/"@, d2) {
                    assert(uri@.subrange(d2, d2 + 8)[0] == '/');
                    assert(uri@[d2] == '/');
                    if d2 < d as int {
                        assert(uri@[d2] != '/');
                    } else if d2 > d as int {
                        assert(uri@[d as int] != '/');
                    }
                }
            }
        }
        false
    }
}

/// Whether the submitted URL is a tweet reference — the pure classification
/// predicate that selects the social-embed strategy.
#[verifier::loop_isolation(false)]
pub fn isTweet(uri: &str) -> (r: bool)
    ensures
        r == is_tweet(uri@),
{
    proof {
        reveal_strlit("https://");
        reveal_strlit("http://");
    }
    let len = uri.unicode_len();
    let mut i: usize = 0;
    while i < len
        invariant
            i <= len,
            forall|j: int| 0 <= j < i ==> !#[trigger] tweet_at(uri@, j),
        decreases len - i,
    {
        if tweetAt(uri, i) {
            return true;
        }
        i += 1;
    }
    proof {
        assert forall|j: int| !#[trigger] tweet_at(uri@, j) by {
            if 0 <= j < len {
            } else {
                assert(!match_at(uri@, "https://"@, j));
                assert(!match_at(uri@, "http://"@, j));
            }
        }
    }
    false
}

/// The title-extraction strategy a URL selects.
pub enum UrlKind {
    SocialEmbed,
    GenericHTML,
}

/// Classify the submitted URL: tweet references take the social-embed
/// strategy, everything else the generic HTML strategy.
pub fn classify(uri: &str) -> (k: UrlKind)
    ensures
        k is SocialEmbed <==> is_tweet(uri@),
{
    if isTweet(uri) {
        UrlKind::SocialEmbed
    } else {
        UrlKind::GenericHTML
    }
}

/// The social-embed strategy on an embed fragment: the nonempty inner text
/// of the first paragraph directly inside the first blockquote — between the
/// `<p...>` tag standing right after the first `<blockquote...>` tag's `>`
/// and the next `</p>` — provided a `</blockquote>` follows later.
pub open spec fn tweet_text_of(h: Seq<char>) -> Option<Seq<char>> {
    match first_match_from(h, "<blockquote"@, 0) {
        None => None,
        Some(b) => match first_match_from(h, ">"@, b + 11) {
            None => None,
            Some(g1) => if !match_at(h, "<p"@, g1 + 1) {
                None
            } else {
                match first_match_from(h, ">"@, g1 + 3) {
                    None => None,
                    Some(g2) => match first_match_from(h, "</p>"@, g2 + 1) {
                        None => None,
                        Some(e) => if e == g2 + 1 {
                            None
                        } else {
                            match first_match_from(h, "</blockquote>"@, e + 4) {
                                None => None,
                                Some(_) => Some(h.subrange(g2 + 1, e)),
                            }
                        },
                    },
                }
            },
        },
    }
}

/// Extract the first paragraph's inner content from an embed fragment by
/// structural pattern matching. Failure is a valid outcome, never an error.
#[verifier::loop_isolation(false)]
pub fn tweetTextFromEmbed(html: &str) -> (r: Option<String>)
    ensures
        r matches Some(t) ==> tweet_text_of(html@) == Some(t@),
        r is None ==> tweet_text_of(html@) is None,
{
    proof {
        reveal_strlit("<blockquote");
        reveal_strlit(">");
        reveal_strlit("<p");
        reveal_strlit("</p>");
        reveal_strlit("</blockquote>");
    }
    let len = html.unicode_len();
    let b = match findFrom(html, "<blockquote", 0) {
        Some(b) => b,
        None => {
            return None;
        },
    };
    proof {
        lemma_first_match_is_match(html@, "<blockquote"@, 0, b as int);
    }
    let g1 = match findFrom(html, ">", b + 11) {
        Some(g) => g,
        None => {
            return None;
        },
    };
    proof {
        lemma_first_match_is_match(html@, ">"@, b as int + 11, g1 as int);
    }
    if !(len - (g1 + 1) >= 2 && matchAt(html, "<p", g1 + 1)) {
        return None;
    }
    if len - g1 < 3 {
        return None;
    }
    let g2 = match findFrom(html, ">", g1 + 3) {
        Some(g) => g,
        None => {
            return None;
        },
    };
    proof {
        lemma_first_match_is_match(html@, ">"@, g1 as int + 3, g2 as int);
    }
    let e = match findFrom(html, "</p>", g2 + 1) {
        Some(e) => e,
        None => {
            return None;
        },
    };
    proof {
        lemma_first_match_is_match(html@, "</p>"@, g2 as int + 1, e as int);
    }
    if e == g2 + 1 {
        return None;
    }
    match findFrom(html, "</blockquote>", e + 4) {
        Some(_) => {},
        None => {
            return None;
        },
    }
    let inner = html.substring_char(g2 + 1, e);
    Some(inner.to_owned())
}

/// The "html" member of an oEmbed response document, as named by
/// `oembed_html_of`; the name stands for what serde_json's parse of the
/// response yields, a function of the response text alone.
pub uninterp spec fn oembed_html_of(s: Seq<char>) -> Option<Seq<char>>;

/// Relies on serde_json: `from_str` parses the oEmbed response document, and
/// `Value::get` with `Value::as_str` select its "html" member when that
/// member is a string. The outcome depends on the response text alone, so it
/// is named by `oembed_html_of`; nothing more is assumed of it.
#[verifier::external_body]
fn oembedHtmlField(body: &str) -> (r: Option<String>)
    ensures
        r matches Some(h) ==> oembed_html_of(body@) == Some(h@),
        r is None ==> oembed_html_of(body@) is None,
{
    let doc: serde_json::Value = match serde_json::from_str(body) {
        Ok(v) => v,
        Err(_) => {
            return None;
        },
    };
    let html = match doc.get("html") {
        Some(v) => v,
        None => {
            return None;
        },
    };
    html.as_str().map(|s| s.to_owned())
}

/// The social-embed strategy applied to a fetched oEmbed response: pattern
/// match the response's "html" member for the first paragraph's content.
/// Yields nothing when the response does not parse, has no "html" string, or
/// the fragment does not match; no failure here is fatal.
pub fn getTitleForTweet(oembed_body: &str) -> (r: Option<String>)
    ensures
        match oembed_html_of(oembed_body@) {
            Some(h) => (r matches Some(t) ==> tweet_text_of(h) == Some(t@)) && (r is None
                ==> tweet_text_of(h) is None),
            None => r is None,
        },
{
    match oembedHtmlField(oembed_body) {
        Some(h) => tweetTextFromEmbed(h.as_str()),
        None => None,
    }
}

} // verus!
