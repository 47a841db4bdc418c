//! The proxy endpoint: the fixed `https://authority/path` that a CONNECT-UDP
//! client requests.
//!
//! A request is matched on the path component only; the query string is ignored.
//! That keeps the server compatible with clients whose URI template puts the
//! target into the query: the server ignores it and forwards to its own target.

use vstd::prelude::*;
use vstd::slice::slice_subrange;

use crate::text::char_vec;
use crate::text::chars_of;
use crate::text::find;
use crate::text::find_in;
use crate::text::lemma_find_is;
use crate::text::lemma_find_none;
use crate::text::occurs_at;
use crate::text::same_chars;
use crate::text::string_of;

verus! {

/// What follows `://` in an absolute URI.
pub open spec fn after_scheme(raw: Seq<char>) -> Option<Seq<char>> {
    match find(raw, seq![':', '/', '/']) {
        Some(i) => Some(raw.skip(i + 3)),
        None => None,
    }
}

/// The authority in what follows the scheme: everything before the first slash.
pub open spec fn authority_part(rest: Seq<char>) -> Seq<char> {
    match find(rest, seq!['/']) {
        Some(i) => rest.take(i),
        None => rest,
    }
}

/// The path and query in what follows the scheme: everything from the first
/// slash on, or a lone slash.
pub open spec fn path_part(rest: Seq<char>) -> Seq<char> {
    match find(rest, seq!['/']) {
        Some(i) => rest.skip(i),
        None => seq!['/'],
    }
}

/// Authority and path of an absolute URI, or `None` if there is no scheme.
pub fn split_uri(raw: &[char]) -> (r: Option<(Vec<char>, Vec<char>)>)
    ensures
        match (r, after_scheme(raw@)) {
            (Some(parts), Some(rest)) => parts.0@ == authority_part(rest) && parts.1@ == path_part(
                rest,
            ),
            (None, None) => true,
            _ => false,
        },
{
    let mark: [char; 3] = [':', '/', '/'];
    let slash: [char; 1] = ['/'];
    assert(mark@ =~= seq![':', '/', '/']);
    assert(slash@ =~= seq!['/']);
    proof {
        lemma_find_none(raw@, mark@);
    }
    let at: usize = match find_in(raw, &mark) {
        Some(i) => i,
        None => return None,
    };
    let n: usize = raw.len();
    let rest = slice_subrange(raw, at + 3, n);
    assert(rest@ =~= raw@.skip(at + 3));
    proof {
        lemma_find_none(rest@, slash@);
    }
    let m: usize = rest.len();
    match find_in(rest, &slash) {
        Some(i) => {
            let a = char_vec(rest, 0, i);
            let p = char_vec(rest, i, m);
            assert(a@ =~= rest@.take(i as int));
            assert(p@ =~= rest@.skip(i as int));
            Some((a, p))
        },
        None => {
            let a = char_vec(rest, 0, m);
            assert(a@ =~= rest@);
            let mut p: Vec<char> = Vec::new();
            p.push('/');
            assert(p@ =~= seq!['/']);
            Some((a, p))
        },
    }
}

/// The path component of a request path: everything before `?`.
pub open spec fn spec_path_only(p: Seq<char>) -> Seq<char> {
    match find(p, seq!['?']) {
        Some(i) => p.take(i),
        None => p,
    }
}

/// The length of the path component of `p`.
fn path_len(p: &[char]) -> (r: usize)
    ensures
        r <= p@.len(),
        p@.take(r as int) == spec_path_only(p@),
{
    let mark: [char; 1] = ['?'];
    assert(mark@ =~= seq!['?']);
    proof {
        lemma_find_none(p@, mark@);
    }
    match find_in(p, &mark) {
        Some(i) => i,
        None => {
            assert(p@.take(p@.len() as int) =~= p@);
            p.len()
        },
    }
}

/// The path component (everything before `?`).
pub fn path_only(p: &str) -> (r: String)
    ensures
        r@ == spec_path_only(p@),
{
    let chars = chars_of(p);
    let n: usize = path_len(&chars);
    assert(chars@.subrange(0, n as int) =~= chars@.take(n as int));
    string_of(&chars, 0, n)
}

/// Why a text is no endpoint.
#[derive(Clone, Copy, Debug, PartialEq, Eq, Structural)]
pub enum EndpointError {
    /// There is no `://`: the text is no absolute URI.
    NotAbsolute,
    /// Nothing stands between the scheme and the path.
    NoAuthority,
}

/// A parsed proxy endpoint: the authority to connect to and the request `:path`
/// to send or accept.
#[derive(Clone, Debug)]
pub struct Endpoint {
    /// The full text of the endpoint.
    pub raw: String,
    /// Authority (host[:port]) that the client connects to and the server expects
    /// in the `:authority` pseudo-header.
    pub authority: String,
    /// The request `:path` (path and optional query).
    pub path: String,
}

/// Authority and path of the endpoint that `raw` writes.
pub open spec fn spec_parse(raw: Seq<char>) -> Result<(Seq<char>, Seq<char>), EndpointError> {
    match after_scheme(raw) {
        None => Err(EndpointError::NotAbsolute),
        Some(rest) => if authority_part(rest).len() == 0 {
            Err(EndpointError::NoAuthority)
        } else {
            Ok((authority_part(rest), path_part(rest)))
        },
    }
}

/// Whether a request path matches an endpoint path: their path components agree.
pub open spec fn paths_match(endpoint_path: Seq<char>, path: Seq<char>) -> bool {
    spec_path_only(path) == spec_path_only(endpoint_path)
}

impl Endpoint {
    /// Parse `scheme://authority[/path]`.
    pub fn parse(raw: &str) -> (r: Result<Self, EndpointError>)
        ensures
            match r {
                Ok(e) => e.raw@ == raw@ && spec_parse(raw@) == Ok::<_, EndpointError>(
                    (e.authority@, e.path@),
                ),
                Err(err) => spec_parse(raw@) == Err::<(Seq<char>, Seq<char>), _>(err),
            },
    {
        let chars = chars_of(raw);
        match split_uri(&chars) {
            None => Err(EndpointError::NotAbsolute),
            Some((authority, path)) => {
                if authority.len() == 0 {
                    return Err(EndpointError::NoAuthority);
                }
                let a = string_of(&authority, 0, authority.len());
                let p = string_of(&path, 0, path.len());
                assert(a@ =~= authority@);
                assert(p@ =~= path@);
                Ok(Endpoint { raw: raw.to_owned(), authority: a, path: p })
            },
        }
    }

    /// Whether a request `:path` matches this endpoint, comparing the path
    /// component only.
    pub fn matches(&self, path: &str) -> (r: bool)
        ensures
            r == paths_match(self.path@, path@),
    {
        let a = chars_of(path);
        let b = chars_of(&self.path);
        let na: usize = path_len(&a);
        let nb: usize = path_len(&b);
        let x = slice_subrange(&a, 0, na);
        let y = slice_subrange(&b, 0, nb);
        assert(x@ =~= a@.take(na as int));
        assert(y@ =~= b@.take(nb as int));
        same_chars(x, y)
    }
}

/// Appending a query to a path does not change its path component.
pub proof fn lemma_query_ignored(p: Seq<char>, query: Seq<char>)
    ensures
        spec_path_only(p + seq!['?'] + query) == spec_path_only(p),
{
    let mark = seq!['?'];
    let q = p + mark + query;
    lemma_find_none(p, mark);
    assert forall|j: int| 0 <= j < p.len() implies occurs_at(q, mark, j) == occurs_at(
        p,
        mark,
        j,
    ) by {
        assert(q.subrange(j, j + 1) =~= p.subrange(j, j + 1));
    }
    match find(p, mark) {
        Some(i) => {
            assert(occurs_at(q, mark, i));
            assert(q.take(i) =~= p.take(i));
            lemma_find_is(q, mark, i);
        },
        None => {
            let i = p.len() as int;
            assert(q.subrange(i, i + 1) =~= mark);
            assert forall|j: int| 0 <= j < i implies !#[trigger] occurs_at(q, mark, j) by {
                assert(!occurs_at(p, mark, j));
            }
            assert(q.take(i) =~= p);
            lemma_find_is(q, mark, i);
        },
    }
}

/// Whether an endpoint matches a request path does not depend on the queries of
/// either side.
pub proof fn lemma_match_ignores_queries(
    endpoint_path: Seq<char>,
    endpoint_query: Seq<char>,
    path: Seq<char>,
    query: Seq<char>,
)
    ensures
        paths_match(endpoint_path, path + seq!['?'] + query) == paths_match(endpoint_path, path),
        paths_match(endpoint_path + seq!['?'] + endpoint_query, path) == paths_match(
            endpoint_path,
            path,
        ),
{
    lemma_query_ignored(path, query);
    lemma_query_ignored(endpoint_path, endpoint_query);
}

/// An endpoint that parses has an authority that is not empty and holds no slash,
/// and a path that starts with a slash.
pub proof fn lemma_parsed_parts(raw: Seq<char>)
    ensures
        spec_parse(raw) matches Ok((authority, path)) ==> {
            &&& authority.len() > 0
            &&& !authority.contains('/')
            &&& path.len() > 0
            &&& path[0] == '/'
        },
{
    let slash = seq!['/'];
    if let Ok((authority, path)) = spec_parse(raw) {
        let rest = after_scheme(raw)->0;
        lemma_find_none(rest, slash);
        assert forall|k: int| 0 <= k < authority.len() implies authority[k] != '/' by {
            if authority[k] == '/' {
                assert(rest.subrange(k, k + 1) =~= slash);
                assert(occurs_at(rest, slash, k));
            }
        }
        if let Some(i) = find(rest, slash) {
            assert(rest.subrange(i, i + 1)[0] == slash[0]);
        }
    }
}

/// Parsing `https://` followed by an authority and a path gives these two back.
pub proof fn lemma_parse_roundtrip(authority: Seq<char>, path: Seq<char>)
    requires
        authority.len() > 0,
        !authority.contains('/'),
        path.len() > 0,
        path[0] == '/',
    ensures
        spec_parse(seq!['h', 't', 't', 'p', 's', ':', '/', '/'] + authority + path) == Ok::<
            _,
            EndpointError,
        >((authority, path)),
{
    let scheme = seq!['h', 't', 't', 'p', 's', ':', '/', '/'];
    let raw = scheme + authority + path;
    let mark = seq![':', '/', '/'];
    let slash = seq!['/'];
    assert(raw.subrange(5, 8) =~= mark);
    assert forall|j: int| 0 <= j < 5 implies !#[trigger] occurs_at(raw, mark, j) by {
        assert(raw[j] == scheme[j]);
        if occurs_at(raw, mark, j) {
            assert(raw.subrange(j, j + 3)[0] == raw[j]);
        }
    }
    lemma_find_is(raw, mark, 5);
    let rest = raw.skip(8);
    assert(rest =~= authority + path);
    let n = authority.len() as int;
    assert(rest.subrange(n, n + 1) =~= slash);
    assert forall|j: int| 0 <= j < n implies !#[trigger] occurs_at(rest, slash, j) by {
        if occurs_at(rest, slash, j) {
            assert(rest.subrange(j, j + 1)[0] == authority[j]);
            assert(authority.contains('/'));
        }
    }
    lemma_find_is(rest, slash, n);
    assert(rest.take(n) =~= authority);
    assert(rest.skip(n) =~= path);
}

/// An endpoint path and a request path without queries match exactly if they are the
/// same text, and queries on either side, or both, change nothing of that.
pub proof fn lemma_match_is_equality(p: Seq<char>, q: Seq<char>, x: Seq<char>, y: Seq<char>)
    requires
        !p.contains('?'),
        !q.contains('?'),
    ensures
        paths_match(p, q) <==> p == q,
        paths_match(p + seq!['?'] + x, q) <==> p == q,
        paths_match(p, q + seq!['?'] + y) <==> p == q,
        paths_match(p + seq!['?'] + x, q + seq!['?'] + y) <==> p == q,
{
    lemma_path_component(p, x);
    lemma_path_component(q, y);
}

/// The path component is what stands before the first question mark, and all of a path
/// without one.
pub proof fn lemma_path_component(p: Seq<char>, query: Seq<char>)
    requires
        !p.contains('?'),
    ensures
        spec_path_only(p) == p,
        spec_path_only(p + seq!['?'] + query) == p,
{
    let mark = seq!['?'];
    lemma_find_none(p, mark);
    if let Some(i) = find(p, mark) {
        assert(p.subrange(i, i + 1)[0] == '?');
        assert(p.contains('?'));
    }
    lemma_query_ignored(p, query);
}

/// A text is an endpoint exactly if `://` stands in it with an authority behind it. The
/// authority reaches from behind the first `://` to the next slash, and the path from
/// there to the end; without a slash the path is `/`.
pub proof fn lemma_parse_written_out(raw: Seq<char>, k: int)
    requires
        0 <= k,
        k + 3 <= raw.len(),
        raw[k] == ':' && raw[k + 1] == '/' && raw[k + 2] == '/',
        forall|j: int|
            0 <= j < k ==> !(#[trigger] raw[j] == ':' && raw[j + 1] == '/' && raw[j + 2] == '/'),
    ensures
        match spec_parse(raw) {
            Ok((authority, path)) => {
                &&& authority.len() > 0
                &&& !authority.contains('/')
                &&& raw.skip(k + 3) == authority + path || (raw.skip(k + 3) == authority && path
                    == seq!['/'])
                &&& path.len() > 0 && path[0] == '/'
            },
            Err(e) => e == EndpointError::NoAuthority && (raw.len() == k + 3 || raw[k + 3] == '/'),
        },
{
    let mark = seq![':', '/', '/'];
    let slash = seq!['/'];
    assert(raw.subrange(k, k + 3) =~= mark);
    assert forall|j: int| 0 <= j < k implies !#[trigger] occurs_at(raw, mark, j) by {
        if occurs_at(raw, mark, j) {
            assert(raw.subrange(j, j + 3)[0] == raw[j]);
            assert(raw.subrange(j, j + 3)[1] == raw[j + 1]);
            assert(raw.subrange(j, j + 3)[2] == raw[j + 2]);
        }
    }
    lemma_find_is(raw, mark, k);
    let rest = raw.skip(k + 3);
    lemma_find_none(rest, slash);
    lemma_parsed_parts(raw);
    match find(rest, slash) {
        Some(i) => {
            assert(rest.subrange(i, i + 1)[0] == '/');
            assert(rest.take(i) + rest.skip(i) =~= rest);
        },
        None => {},
    }
}

/// A text without `://` is no absolute URI.
pub proof fn lemma_no_scheme(raw: Seq<char>)
    requires
        forall|j: int|
            0 <= j < raw.len() - 2 ==> !(#[trigger] raw[j] == ':' && raw[j + 1] == '/' && raw[j + 2]
                == '/'),
    ensures
        spec_parse(raw) == Err::<(Seq<char>, Seq<char>), _>(EndpointError::NotAbsolute),
{
    let mark = seq![':', '/', '/'];
    lemma_find_none(raw, mark);
    assert forall|j: int| !#[trigger] occurs_at(raw, mark, j) by {
        if occurs_at(raw, mark, j) {
            assert(raw.subrange(j, j + 3)[0] == raw[j]);
            assert(raw.subrange(j, j + 3)[1] == raw[j + 1]);
            assert(raw.subrange(j, j + 3)[2] == raw[j + 2]);
        }
    }
}

} // verus!
