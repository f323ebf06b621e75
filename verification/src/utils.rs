//! Helpers on locations: telling a URL from a file path, normalising a URL,
//! and turning a configured method into the request or command to run.
use vstd::prelude::*;
use crate::decimal::chars_of;

verus! {

/// `s` holds the scheme separator `://` somewhere.
pub open spec fn spec_is_url(s: Seq<char>) -> bool {
    exists|i: int|
        0 <= i && i + 3 <= s.len() && #[trigger] s[i] == ':' && s[i + 1] == '/' && s[i + 2] == '/'
}

/// Whether a location names a URL (it contains `://`) rather than a file.
pub fn check_is_url(value: &String) -> (r: bool)
    ensures
        r == spec_is_url(value@),
{
    let cs = chars_of(value.as_str());
    let n = cs.len();
    if n < 3 {
        return false;
    }
    let mut i: usize = 0;
    while i < n - 2
        invariant
            n == cs.len(),
            cs@ == value@,
            n >= 3,
            i <= n - 2,
            forall|j: int|
                0 <= j < i ==> !(#[trigger] cs@[j] == ':' && cs@[j + 1] == '/' && cs@[j + 2]
                    == '/'),
        decreases n - i,
    {
        if cs[i] == ':' && cs[i + 1] == '/' && cs[i + 2] == '/' {
            return true;
        }
        i = i + 1;
    }
    false
}

/// Text equality, character by character.
pub fn text_equals(a: &str, b: &str) -> (r: bool)
    ensures
        r == (a@ == b@),
{
    let x = chars_of(a);
    let y = chars_of(b);
    if x.len() != y.len() {
        return false;
    }
    let mut i: usize = 0;
    while i < x.len()
        invariant
            x@ == a@,
            y@ == b@,
            x.len() == y.len(),
            i <= x.len(),
            forall|j: int| 0 <= j < i ==> x@[j] == y@[j],
        decreases x.len() - i,
    {
        if x[i] != y[i] {
            return false;
        }
        i = i + 1;
    }
    assert(x@ =~= y@);
    true
}

#[verifier::external_type_specification]
#[verifier::external_body]
pub struct ExUrlParseError(url::ParseError);

/// The serialization of the absolute URL that `url::Url::parse` reads from
/// `input`, or `None` where it reports an error.
pub uninterp spec fn url_serialization(input: Seq<char>) -> Option<Seq<char>>;

/// A character that the URL parser copies into a query unchanged:
/// printable ASCII other than `"`, `#`, `<`, `>` and `'` (which the query
/// percent-encode sets encode).
pub open spec fn plain_query_char(c: char) -> bool {
    '!' <= c && c <= '~' && c != '"' && c != '#' && c != '<' && c != '>' && c != '\''
}

/// The query of `s` starts at `i`: the first `?` of `s`, with no `#` before
/// it, and the rest of `s` holds only plain query characters.
pub open spec fn plain_query_at(s: Seq<char>, i: int) -> bool {
    &&& 0 <= i < s.len()
    &&& s[i] == '?'
    &&& forall|j: int| 0 <= j < i ==> #[trigger] s[j] != '?' && s[j] != '#'
    &&& forall|j: int| i < j < s.len() ==> plain_query_char(#[trigger] s[j])
}

/// `out` ends with the query `s[i..]` (the `?` and what follows it).
pub open spec fn keeps_query(s: Seq<char>, i: int, out: Seq<char>) -> bool {
    &&& out.len() >= s.len() - i
    &&& out.subrange(out.len() - (s.len() - i), out.len() as int) == s.subrange(i, s.len() as int)
}

/// Calls `url::Url::parse` and, on success, hands back the URL's
/// serialization (`String::from(Url)`). The contract claims that the
/// outcome is a fixed function of the input, named `url_serialization`,
/// and one fact of it: the parser starts the query at the first `?` (no
/// `#` before it), writes `?` and the query percent-encoded at the end of
/// the serialization when no fragment follows, and leaves plain query
/// characters as they are (url's parser.rs, `parse_query_and_fragment`
/// and `parse_query`). What else the serialization is (the WHATWG URL
/// serializer) is not stated.
#[verifier::external_body]
fn parse_url(input: &str) -> (r: Result<String, url::ParseError>)
    ensures
        match r {
            Ok(s) => url_serialization(input@) == Some(s@) && forall|i: int|
                #[trigger] plain_query_at(input@, i) ==> keeps_query(input@, i, s@),
            Err(_) => url_serialization(input@) is None,
        },
{
    url::Url::parse(input).map(String::from)
}

/// Whether `value` parses as an absolute URL.
pub fn url_is_valid(value: &String) -> (r: bool)
    ensures
        r == url_serialization(value@) is Some,
{
    match parse_url(value.as_str()) {
        Ok(_) => true,
        Err(_) => false,
    }
}

/// The normalised form of a URL location. The value must parse as a URL.
/// A plain query of the value is kept, at the end of the result.
pub fn make_safe_url(value: &String) -> (r: String)
    requires
        url_serialization(value@) is Some,
    ensures
        r@ == url_serialization(value@)->0,
        forall|i: int| #[trigger] plain_query_at(value@, i) ==> keeps_query(value@, i, r@),
{
    match parse_url(value.as_str()) {
        Ok(s) => s,
        Err(_) => {
            proof {
                assert(false);
            }
            String::new()
        },
    }
}

/// What a fired trigger asks for.
#[derive(Debug, PartialEq, Eq)]
pub enum Action {
    /// An HTTP GET request of `url`.
    HttpGet { url: String },
    /// An HTTP POST request to `url` with `body` as the request body.
    HttpPost { url: String, body: String },
    /// Running the program at `program`.
    RunCommand { program: String },
}

/// The action for a method number: 0 none, 1 get, 2 post, 3 exec.
/// Other numbers name no method.
pub fn plan_action(method: u8, location: String, data: String) -> (r: Option<Action>)
    requires
        method <= 3,
    ensures
        method == 0 ==> r is None,
        method == 1 ==> r == Some(Action::HttpGet { url: location }),
        method == 2 ==> r == Some(Action::HttpPost { url: location, body: data }),
        method == 3 ==> r == Some(Action::RunCommand { program: location }),
{
    if method == 0 {
        None
    } else if method == 1 {
        Some(Action::HttpGet { url: location })
    } else if method == 2 {
        Some(Action::HttpPost { url: location, body: data })
    } else {
        Some(Action::RunCommand { program: location })
    }
}

} // verus!
