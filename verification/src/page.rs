use vstd::prelude::*;
use vstd::seq_lib::lemma_seq_concat_contains_all_elements;
use crate::urls::{parse_url, url_of};

verus! {

/// What one successfully processed page yields: its title and the URLs of its
/// outbound links, in document order. Immutable once produced.
#[derive(Debug, Clone)]
pub struct WebPageInfo {
    pub title: String,
    pub links: Vec<String>,
}

/// The ways extracting page information can fail.
#[derive(Debug, Clone, PartialEq, Eq, Structural)]
pub enum GetWebPageInfoError {
    /// The document has no title element.
    NoTitle,
}

/// The text of the first `title` element of an HTML document, if the document
/// has one. Uninterpreted: it stands for what the `select` crate's HTML
/// parser finds, which depends on the document text alone.
pub uninterp spec fn title_text_of(html: Seq<char>) -> Option<Seq<char>>;

/// The `href` attribute of each anchor element of an HTML document, in
/// document order, `None` for an anchor that carries no such attribute.
/// Uninterpreted: it stands for what the `select` crate's HTML parser finds,
/// which depends on the document text alone.
pub uninterp spec fn anchor_hrefs_of(html: Seq<char>) -> Seq<Option<Seq<char>>>;

/// A string with its surrounding whitespace removed, as `str::trim` does it.
/// Uninterpreted: the Unicode whitespace property is stated nowhere here.
pub uninterp spec fn trim_of(s: Seq<char>) -> Seq<char>;

/// Whether a document is small enough to hand to the HTML parser. The
/// parser's backing buffer (html5ever's tendril) holds at most 4 GB of
/// UTF-8 and panics past that, and one character takes at most four bytes,
/// so documents under 2^30 characters stay safely below the limit — a
/// machine bound, not a policy.
pub open spec fn html_len_ok(html: Seq<char>) -> bool {
    html.len() < 0x4000_0000
}

/// Relies on `select::document::Document::from(&str)`, `Document::find` with
/// the `Name("title")` predicate, and `Node::text`: parsing is a function of
/// the document text alone, and the iterator's first element is the first
/// matching element of the document. The length bound keeps the text under
/// the parser buffer's limit, past which it panics; a pathologically nested
/// document can still exhaust the stack, as the parser recurses per nesting
/// level.
#[verifier::external_body]
fn html_title(html: &str) -> (r: Option<String>)
    requires
        html_len_ok(html@),
    ensures
        r is Some <==> title_text_of(html@) is Some,
        r matches Some(t) ==> t@ == title_text_of(html@)->0,
{
    let doc = select::document::Document::from(html);
    doc.find(select::predicate::Name("title")).next().map(|n| n.text())
}

/// Relies on `select::document::Document::from(&str)`, `Document::find` with
/// the `Name("a")` predicate, and `Node::attr`: parsing is a function of the
/// document text alone, and `find` yields the matching elements in document
/// order. The length bound keeps the text under the parser buffer's limit,
/// past which it panics; a pathologically nested document can still exhaust
/// the stack, as the parser recurses per nesting level.
#[verifier::external_body]
fn html_anchor_hrefs(html: &str) -> (r: Vec<Option<String>>)
    requires
        html_len_ok(html@),
    ensures
        r.deep_view() == anchor_hrefs_of(html@),
{
    let doc = select::document::Document::from(html);
    doc.find(select::predicate::Name("a")).map(
        |n| n.attr("href").map(|s| s.to_owned()),
    ).collect()
}

/// Relies on `str::trim`: the result depends on the characters alone.
#[verifier::external_body]
fn trim_str(s: &str) -> (r: String)
    ensures
        r@ == trim_of(s@),
{
    s.trim().to_owned()
}

/// What one anchor contributes to a page's link list: the normalized form
/// of its href when it has one and that href parses as a URL, and nothing
/// otherwise.
pub open spec fn link_of(href: Option<Seq<char>>) -> Option<Seq<char>> {
    match href {
        Some(h) => url_of(h),
        None => None,
    }
}

/// The link list extracted from a sequence of anchors' hrefs: each anchor
/// whose href is present and parses as a URL contributes its normalized
/// form, in order; anchors with a missing or malformed href contribute
/// nothing.
pub open spec fn valid_links(hrefs: Seq<Option<Seq<char>>>) -> Seq<Seq<char>> {
    hrefs.filter_map(|h: Option<Seq<char>>| link_of(h))
}

/// The link list of a whole document: its anchors' hrefs, filtered and
/// normalized.
pub open spec fn spec_page_links(html: Seq<char>) -> Seq<Seq<char>> {
    valid_links(anchor_hrefs_of(html))
}

/// Extracts a page's information from its decoded HTML text: the trimmed text
/// of its first title element, and the parses of those anchor hrefs that are
/// valid URLs, in document order. Fails exactly when the document has no
/// title element. Documents past the HTML parser's size limit are excluded.
pub fn get_web_page_info(html: &str) -> (r: Result<WebPageInfo, GetWebPageInfoError>)
    requires
        html_len_ok(html@),
    ensures
        r is Ok <==> title_text_of(html@) is Some,
        r is Err ==> r == Err::<WebPageInfo, GetWebPageInfoError>(GetWebPageInfoError::NoTitle),
        r matches Ok(page) ==> page.title@ == trim_of(title_text_of(html@)->0)
            && page.links.deep_view() == spec_page_links(html@),
{
    let title_raw = match html_title(html) {
        None => {
            return Err(GetWebPageInfoError::NoTitle);
        },
        Some(t) => t,
    };
    let title = trim_str(title_raw.as_str());
    let hrefs = html_anchor_hrefs(html);
    let ghost all = hrefs.deep_view();
    let mut links: Vec<String> = Vec::new();
    let mut i: usize = 0;
    while i < hrefs.len()
        invariant
            hrefs.deep_view() == all,
            all.len() == hrefs@.len(),
            i <= hrefs@.len(),
            links.deep_view() == valid_links(all.take(i as int)),
        decreases hrefs@.len() - i,
    {
        proof {
            all.lemma_filter_map_take_succ(|h: Option<Seq<char>>| link_of(h), i as int);
            assert(all[i as int] == hrefs@[i as int].deep_view());
        }
        let ghost pre = links.deep_view();
        match &hrefs[i] {
            Some(h) => {
                match parse_url(h.as_str()) {
                    Some(u) => {
                        links.push(u);
                        proof {
                            assert(links.deep_view() =~= pre + seq![u@]);
                        }
                    },
                    None => {
                        proof {
                            assert(links.deep_view() =~= pre + Seq::<Seq<char>>::empty());
                        }
                    },
                }
            },
            None => {
                proof {
                    assert(links.deep_view() =~= pre + Seq::<Seq<char>>::empty());
                }
            },
        }
        i += 1;
    }
    proof {
        assert(all.take(hrefs@.len() as int) =~= all);
    }
    Ok(WebPageInfo { title, links })
}

/// Link filtering, stated of any anchor sequence: a URL stands in the
/// extracted link list exactly when some anchor's href parses to it —
/// anchors with a missing or malformed href contribute nothing, and every
/// href that parses is kept.
pub proof fn lemma_link_filtering(hrefs: Seq<Option<Seq<char>>>)
    ensures
        forall|u: Seq<char>|
            #[trigger] valid_links(hrefs).contains(u) ==> exists|i: int|
                0 <= i < hrefs.len() && link_of(hrefs[i]) == Some(u),
        forall|i: int|
            0 <= i < hrefs.len() && #[trigger] link_of(hrefs[i]) is Some ==> valid_links(
                hrefs,
            ).contains(link_of(hrefs[i])->0),
{
    let f = |h: Option<Seq<char>>| link_of(h);
    assert forall|u: Seq<char>| #[trigger] valid_links(hrefs).contains(u) implies exists|i: int|
        0 <= i < hrefs.len() && link_of(hrefs[i]) == Some(u) by {
        hrefs.lemma_filter_map_contains(f, u);
        let t = choose|t: Option<Seq<char>>| #[trigger] hrefs.contains(t) && f(t) == Some(u);
        let i = choose|i: int| 0 <= i < hrefs.len() && hrefs[i] == t;
        assert(link_of(hrefs[i]) == Some(u));
    }
    assert forall|i: int|
        0 <= i < hrefs.len() && #[trigger] link_of(hrefs[i]) is Some implies valid_links(
        hrefs,
    ).contains(link_of(hrefs[i])->0) by {
        lemma_parseable_href_included(hrefs, i);
    }
}

/// Each href that parses as a URL puts that URL into the extracted link list.
proof fn lemma_parseable_href_included(hrefs: Seq<Option<Seq<char>>>, i: int)
    requires
        0 <= i < hrefs.len(),
        link_of(hrefs[i]) is Some,
    ensures
        valid_links(hrefs).contains(link_of(hrefs[i])->0),
    decreases hrefs.len(),
{
    let f = |h: Option<Seq<char>>| link_of(h);
    let rest = hrefs.drop_last();
    let tail = match f(hrefs.last()) {
        Some(u) => seq![u],
        None => Seq::<Seq<char>>::empty(),
    };
    assert(valid_links(hrefs) == rest.filter_map(f) + tail);
    if i == hrefs.len() - 1 {
        assert(tail[0] == link_of(hrefs[i])->0);
        assert(tail.contains(link_of(hrefs[i])->0));
    } else {
        assert(rest[i] == hrefs[i]);
        lemma_parseable_href_included(rest, i);
    }
    lemma_seq_concat_contains_all_elements(rest.filter_map(f), tail, link_of(hrefs[i])->0);
}

} // verus!
