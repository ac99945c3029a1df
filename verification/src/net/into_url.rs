//! URLs.

use crate::error::{Error, ErrorKind};
use crate::text::chars_of;
use vstd::prelude::*;

verus! {

/// The URL that a text denotes, in normal form; none if it is no URL.
pub uninterp spec fn url_parse(text: Seq<char>) -> Option<Seq<char>>;

/// The URL that a reference denotes relative to a base URL, in normal form.
pub uninterp spec fn url_join(base: Seq<char>, reference: Seq<char>) -> Option<Seq<char>>;

/// The path of a URL.
pub uninterp spec fn url_path(url: Seq<char>) -> Option<Seq<char>>;

/// `url::Url::parse`: the result, as its normal form, is a function of the text.
/// Which texts are URLs and what their normal form is (the URL standard) is left
/// unsaid.
#[verifier::external_body]
pub(crate) fn parse_text(text: &str) -> (r: Option<String>)
    ensures
        match r {
            Some(u) => url_parse(text@) == Some(u@),
            None => url_parse(text@) is None,
        },
{
    url::Url::parse(text).ok().map(|u| u.to_string())
}

/// `url::Url::join`: the result, as its normal form, is a function of the two
/// texts; a base that is no URL joins with nothing.
#[verifier::external_body]
pub(crate) fn join_text(base: &str, reference: &str) -> (r: Option<String>)
    ensures
        match r {
            Some(u) => url_join(base@, reference@) == Some(u@),
            None => url_join(base@, reference@) is None,
        },
{
    url::Url::parse(base).ok()?.join(reference).ok().map(|u| u.to_string())
}

/// `url::Url::path`: the path is a function of the URL; a text that is no URL
/// has none.
#[verifier::external_body]
pub(crate) fn path_text(url: &str) -> (r: Option<String>)
    ensures
        match r {
            Some(p) => url_path(url@) == Some(p@),
            None => url_path(url@) is None,
        },
{
    url::Url::parse(url).ok().map(|u| u.path().to_string())
}

/// A URL in normal form. Its view is its text.
pub struct Url {
    text: String,
}

impl View for Url {
    type V = Seq<char>;

    closed spec fn view(&self) -> Seq<char> {
        self.text@
    }
}

/// The scheme of a URL: what stands before its first colon.
pub open spec fn scheme_of(url: Seq<char>) -> Seq<char> {
    url.take(crate::seqs::first_where(url, |c: char| c == ':'))
}

impl Url {
    /// Parse a URL.
    pub fn parse(text: &str) -> (r: Result<Url, Error>)
        ensures
            match r {
                Ok(u) => url_parse(text@) == Some(u@),
                Err(e) => url_parse(text@) is None && e.spec_kind() == ErrorKind::InvalidInput,
            },
    {
        match parse_text(text) {
            Some(t) => Ok(Url { text: t }),
            None => Err(Error::new(ErrorKind::InvalidInput)),
        }
    }

    /// Resolve a reference relative to this URL.
    pub fn join(&self, reference: &str) -> (r: Option<Url>)
        ensures
            match r {
                Some(u) => url_join(self@, reference@) == Some(u@),
                None => url_join(self@, reference@) is None,
            },
    {
        match join_text(self.text.as_str(), reference) {
            Some(t) => Some(Url { text: t }),
            None => None,
        }
    }

    /// The path of the URL.
    pub fn path(&self) -> (r: Option<String>)
        ensures
            match r {
                Some(p) => url_path(self@) == Some(p@),
                None => url_path(self@) is None,
            },
    {
        path_text(self.text.as_str())
    }

    /// The URL as text.
    pub fn as_str(&self) -> (r: &str)
        ensures
            r@ == self@,
    {
        self.text.as_str()
    }

    /// The same URL.
    pub fn duplicate(&self) -> (r: Url)
        ensures
            r@ == self@,
    {
        Url { text: self.text.clone() }
    }
}

/// Conversion into a [`Url`], so that functions accept texts and URLs alike.
pub trait IntoUrl: Sized {
    /// The URL that this value denotes, in normal form.
    spec fn denotes(&self) -> Option<Seq<char>>;

    /// Convert `self` into a [`Url`].
    fn into_url(self) -> (r: Result<Url, Error>)
        ensures
            match r {
                Ok(u) => self.denotes() == Some(u@),
                Err(e) => self.denotes() is None && e.spec_kind() == ErrorKind::InvalidInput,
            },
    ;
}

impl IntoUrl for Url {
    open spec fn denotes(&self) -> Option<Seq<char>> {
        Some(self@)
    }

    fn into_url(self) -> (r: Result<Url, Error>) {
        Ok(self)
    }
}

impl<'a> IntoUrl for &'a str {
    open spec fn denotes(&self) -> Option<Seq<char>> {
        url_parse(self@)
    }

    fn into_url(self) -> (r: Result<Url, Error>) {
        Url::parse(self)
    }
}

impl IntoUrl for String {
    open spec fn denotes(&self) -> Option<Seq<char>> {
        url_parse(self@)
    }

    fn into_url(self) -> (r: Result<Url, Error>) {
        Url::parse(self.as_str())
    }
}

impl<'a> IntoUrl for &'a String {
    open spec fn denotes(&self) -> Option<Seq<char>> {
        url_parse(self@)
    }

    fn into_url(self) -> (r: Result<Url, Error>) {
        Url::parse(self.as_str())
    }
}

/// Texts convert alike, whichever type holds them.
pub proof fn law_texts_convert_alike(a: &str, b: String, c: &String)
    requires
        a@ == b@,
        b@ == c@,
    ensures
        a.denotes() == b.denotes(),
        b.denotes() == c.denotes(),
{
}

/// Whether a URL can be fetched over HTTP.
pub open spec fn is_http(url: Seq<char>) -> bool {
    scheme_of(url) == "http"@ || scheme_of(url) == "https"@
}

/// Tests whether a URL can be fetched over HTTP.
pub fn http_scheme(url: &Url) -> (r: bool)
    ensures
        r == is_http(url@),
{
    let chars = chars_of(url.as_str());
    let ghost colon = |c: char| c == ':';
    let mut i: usize = 0;
    while i < chars.len() && chars[i] != ':'
        invariant
            i <= chars@.len(),
            colon == (|c: char| c == ':'),
            forall|j: int| 0 <= j < i ==> !colon(#[trigger] chars@[j]),
        decreases chars@.len() - i,
    {
        i += 1;
    }
    proof {
        crate::seqs::lemma_first_where_is(chars@, colon, i as int);
    }
    let scheme = crate::text::sub_chars(&chars, 0, i);
    assert(scheme@ =~= scheme_of(url@));
    let http = chars_of("http");
    let https = chars_of("https");
    crate::text::same_text(&scheme, &http) || crate::text::same_text(&scheme, &https)
}

/// Check the target of a redirect, given what the location resolved to.
pub fn check_redirect(target: Option<Url>) -> (r: Result<Url, Error>)
    ensures
        match r {
            Ok(u) => target == Some(u) && is_http(u@),
            Err(e) => (target matches Some(u) ==> !is_http(u@)) && e.spec_kind()
                == ErrorKind::TrackerProtocolError,
        },
{
    match target {
        Some(u) => if http_scheme(&u) {
            Ok(u)
        } else {
            Err(Error::new(ErrorKind::TrackerProtocolError))
        },
        None => Err(Error::new(ErrorKind::TrackerProtocolError)),
    }
}

/// Resolve a redirect `Location` against a base URL.
///
/// Handles absolute URLs, relative paths and scheme-relative URLs. A location
/// that does not resolve, or resolves to anything but HTTP, is an error.
pub fn resolve_redirect_url(base: &Url, location: &str) -> (r: Result<Url, Error>)
    ensures
        match r {
            Ok(u) => url_join(base@, location@) == Some(u@) && is_http(u@),
            Err(e) => (url_join(base@, location@) matches Some(t) ==> !is_http(t)) && e.spec_kind()
                == ErrorKind::TrackerProtocolError,
        },
{
    check_redirect(base.join(location))
}

/// The scheme of a URL is what stands before its first colon. A URL can be fetched
/// over HTTP exactly when that is one of the two schemes.
pub proof fn law_scheme(scheme: Seq<char>, rest: Seq<char>)
    requires
        forall|i: int| 0 <= i < scheme.len() ==> #[trigger] scheme[i] != ':',
    ensures
        scheme_of(scheme + seq![':'] + rest) == scheme,
        is_http(scheme + seq![':'] + rest) <==> scheme == seq!['h', 't', 't', 'p'] || scheme
            == seq!['h', 't', 't', 'p', 's'],
{
    let url = scheme + seq![':'] + rest;
    let colon = |c: char| c == ':';
    let n = scheme.len() as int;
    assert forall|j: int| 0 <= j < n implies !colon(#[trigger] url[j]) by {
        assert(url[j] == scheme[j]);
    }
    assert(colon(url[n]));
    crate::seqs::lemma_first_where_is(url, colon, n);
    assert(scheme_of(url) =~= scheme);
    reveal_strlit("http");
    reveal_strlit("https");
    assert("http"@ =~= seq!['h', 't', 't', 'p']);
    assert("https"@ =~= seq!['h', 't', 't', 'p', 's']);
}

} // verus!
