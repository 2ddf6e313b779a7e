//! URLs as text, through the URL parser that `reqwest` hands on.

use vstd::prelude::*;

verus! {

/// What `Url::parse` makes of a text: the text of the URL that it reads,
/// or `None` where the text is not an absolute URL.
pub uninterp spec fn url_text(input: Seq<char>) -> Option<Seq<char>>;

/// Calls `reqwest::Url::parse` and hands back the text of the URL. The
/// result depends on the input alone.
#[verifier::external_body]
pub(crate) fn parse_url(input: &str) -> (out: Option<String>)
    ensures
        out matches Some(url) ==> url_text(input@) == Some(url@),
        out is None ==> url_text(input@) is None,
{
    match reqwest::Url::parse(input) {
        Ok(url) => Some(String::from(url)),
        Err(_) => None,
    }
}

} // verus!
