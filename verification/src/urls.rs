use vstd::prelude::*;

verus! {

/// What the `url` crate's parser makes of a URL string: `Some` of the
/// serialized, normalized absolute URL when the string parses, `None` when it
/// does not. The parser's behaviour itself is stated nowhere in this crate;
/// the crawl engine only needs that it is a function of the input string, so
/// that the visited set and the frontier agree on URL identity.
pub uninterp spec fn url_of(s: Seq<char>) -> Option<Seq<char>>;

/// Relies on `url::Url::parse` and `String::from(Url)`: parsing either fails
/// or yields a URL whose serialization depends on the input string alone, and
/// a relative reference without a base — the empty string among them — does
/// not parse.
#[verifier::external_body]
pub fn parse_url(s: &str) -> (r: Option<String>)
    ensures
        r is Some <==> url_of(s@) is Some,
        r matches Some(u) ==> u@ == url_of(s@)->0,
        s@.len() == 0 ==> r is None,
{
    match url::Url::parse(s) {
        Ok(u) => Some(String::from(u)),
        Err(_) => None,
    }
}

} // verus!
