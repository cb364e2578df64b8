use vstd::prelude::*;
use crate::page::html_len_ok;

verus! {

/// The ways fetching one page can fail. Transport and decoding failures carry
/// a diagnostic message; the other variants carry the offending status code
/// or header value.
#[derive(Debug, Clone)]
pub enum FetchWebPageError {
    /// Transport-level failure: DNS, connection, TLS, timeout.
    HttpError(String),
    /// The response status was not a success code.
    BadHttpStatus(u16),
    /// The response carried no Content-Type header.
    MissingContentType,
    /// The response carried a Content-Type that is not HTML.
    BadContentType(String),
    /// The response body could not be decoded to text.
    TextDecodeError(String),
}

/// A success status in the HTTP sense: 2xx.
pub open spec fn spec_is_success_status(status: u16) -> bool {
    200 <= status < 300
}

/// A Content-Type value under which a response body is taken as an HTML page:
/// exactly `text/html`, or `text/html` directly followed by a `;` and
/// parameters such as a charset. Anything else is rejected.
pub open spec fn spec_is_html_content_type(ct: Seq<char>) -> bool {
    ||| ct == "text/html"@
    ||| (ct.len() > "text/html"@.len() && ct.subrange(0, "text/html"@.len() as int)
            == "text/html"@ && ct["text/html"@.len() as int] == ';')
}

/// Decides whether a Content-Type header value denotes HTML.
pub fn is_html_content_type(ct: &str) -> (r: bool)
    ensures
        r == spec_is_html_content_type(ct@),
{
    let pat = "text/html";
    proof {
        reveal_strlit("text/html");
    }
    let n = ct.unicode_len();
    if n < 9 {
        return false;
    }
    let mut i: usize = 0;
    while i < 9
        invariant
            0 <= i <= 9,
            n == ct@.len(),
            9 <= n,
            pat@ == "text/html"@,
            pat@.len() == 9,
            forall|j: int| 0 <= j < i ==> ct@[j] == pat@[j],
        decreases 9 - i,
    {
        if ct.get_char(i) != pat.get_char(i) {
            return false;
        }
        i += 1;
    }
    proof {
        assert(ct@.subrange(0, 9) =~= pat@);
    }
    if n == 9 {
        proof {
            assert(ct@ =~= pat@);
        }
        true
    } else {
        ct.get_char(9) == ';'
    }
}

/// Validates the metadata of an HTTP response as `fetch_web_page` does before
/// its body may be used: the status must be a success and the Content-Type
/// must be present and denote HTML. Returns exactly the error that the first
/// failing check calls for.
pub fn check_response(status: u16, content_type: &Option<String>) -> (r: Result<
    (),
    FetchWebPageError,
>)
    ensures
        r is Ok <==> (spec_is_success_status(status) && content_type is Some
            && spec_is_html_content_type(content_type->0@)),
        !spec_is_success_status(status) ==> r == Err::<(), FetchWebPageError>(
            FetchWebPageError::BadHttpStatus(status),
        ),
        spec_is_success_status(status) && content_type is None ==> r == Err::<
            (),
            FetchWebPageError,
        >(FetchWebPageError::MissingContentType),
        spec_is_success_status(status) && content_type is Some && !spec_is_html_content_type(
            content_type->0@,
        ) ==> r == Err::<(), FetchWebPageError>(
            FetchWebPageError::BadContentType(content_type->0),
        ),
{
    if !(200 <= status && status < 300) {
        return Err(FetchWebPageError::BadHttpStatus(status));
    }
    match content_type {
        None => Err(FetchWebPageError::MissingContentType),
        Some(ct) => {
            if is_html_content_type(ct.as_str()) {
                Ok(())
            } else {
                Err(FetchWebPageError::BadContentType(ct.clone()))
            }
        },
    }
}

/// A canned HTTP response: what the fetch boundary consumes of a real one —
/// the status code, the Content-Type header if any, and the body as decoded
/// text, `None` standing for a body that cannot be decoded. A table of these
/// drives a crawl without a network.
pub struct PageResponse {
    pub status: u16,
    pub content_type: Option<String>,
    pub body: Option<String>,
}

/// Whether every body a table can hand out stays under the HTML parser's
/// size limit, so that a page fetched from it may be extracted.
pub open spec fn table_wf(table: Seq<(String, PageResponse)>) -> bool {
    forall|i: int|
        0 <= i < table.len() ==> ((#[trigger] table[i]).1.body is Some ==> html_len_ok(
            table[i].1.body->0@,
        ))
}

/// The first response a table holds for a URL, if any; a URL with no entry
/// plays the part of an unreachable host.
pub open spec fn spec_lookup(table: Seq<(String, PageResponse)>, url: Seq<char>) -> Option<
    PageResponse,
>
    decreases table.len(),
{
    if table.len() == 0 {
        None
    } else if table[0].0@ == url {
        Some(table[0].1)
    } else {
        spec_lookup(table.skip(1), url)
    }
}

/// Whether fetching `url` against the table succeeds: an entry exists, its
/// status and Content-Type pass `check_response`, and its body decodes.
pub open spec fn spec_fetch_ok(table: Seq<(String, PageResponse)>, url: Seq<char>) -> bool {
    match spec_lookup(table, url) {
        Some(p) => spec_is_success_status(p.status) && p.content_type is Some
            && spec_is_html_content_type(p.content_type->0@) && p.body is Some,
        None => false,
    }
}

/// The document text a successful fetch against the table yields.
pub open spec fn spec_fetch_body(table: Seq<(String, PageResponse)>, url: Seq<char>) -> Seq<
    char,
> {
    spec_lookup(table, url)->0.body->0@
}

/// Fetches one URL against a response table, validating the response as a
/// network fetch would: the result is the decoded document text, or the
/// error of the first failing check.
pub fn fetch_from_table(table: &Vec<(String, PageResponse)>, url: &String) -> (r: Result<
    String,
    FetchWebPageError,
>)
    ensures
        r is Ok <==> spec_fetch_ok(table@, url@),
        r matches Ok(body) ==> body@ == spec_fetch_body(table@, url@),
        table_wf(table@) && r is Ok ==> html_len_ok(r->Ok_0@),
        r is Err ==> match spec_lookup(table@, url@) {
            None => r->Err_0 is HttpError,
            Some(p) => if !spec_is_success_status(p.status) {
                r->Err_0 == FetchWebPageError::BadHttpStatus(p.status)
            } else if p.content_type is None {
                r->Err_0 == FetchWebPageError::MissingContentType
            } else if !spec_is_html_content_type(p.content_type->0@) {
                r->Err_0 == FetchWebPageError::BadContentType(p.content_type->0)
            } else {
                r->Err_0 is TextDecodeError
            },
        },
{
    let mut i: usize = 0;
    proof {
        assert(table@.skip(0) =~= table@);
    }
    while i < table.len()
        invariant
            i <= table@.len(),
            spec_lookup(table@.skip(i as int), url@) == spec_lookup(table@, url@),
        decreases table@.len() - i,
    {
        proof {
            assert(table@.skip(i as int)[0] == table@[i as int]);
        }
        if table[i].0 == *url {
            let p = &table[i].1;
            match check_response(p.status, &p.content_type) {
                Err(e) => {
                    return Err(e);
                },
                Ok(_) => {
                    match &p.body {
                        Some(text) => {
                            return Ok(text.clone());
                        },
                        None => {
                            return Err(
                                FetchWebPageError::TextDecodeError(
                                    "response body is not decodable text".to_owned(),
                                ),
                            );
                        },
                    }
                },
            }
        }
        proof {
            assert(table@.skip(i as int).skip(1) =~= table@.skip(i as int + 1));
        }
        i += 1;
    }
    proof {
        assert(table@.skip(i as int).len() == 0);
    }
    Err(FetchWebPageError::HttpError("no response for this URL".to_owned()))
}

} // verus!

