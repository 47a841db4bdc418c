//! URI templates with the two CONNECT-UDP variables.
//!
//! Both the well-known path form
//! `.../.well-known/masque/udp/{target_host}/{target_port}/` and the query form
//! `.../masque?h={target_host}&p={target_port}` reduce to: a literal prefix, the
//! host variable, a literal middle, the port variable and a literal suffix, with
//! the host before the port.

use vstd::prelude::*;
use vstd::slice::slice_subrange;

use crate::endpoint::after_scheme;
use crate::endpoint::authority_part;
use crate::endpoint::lemma_no_scheme;
use crate::endpoint::path_part;
use crate::endpoint::split_uri;
use crate::text::char_vec;
use crate::text::chars_of;
use crate::text::decimal;
use crate::text::decimal_u16;
use crate::text::find;
use crate::text::find_in;
use crate::text::lemma_char_found;
use crate::text::lemma_decimal_roundtrip;
use crate::text::lemma_find_is;
use crate::text::lemma_find_none;
use crate::text::lemma_replace_char;
use crate::text::occurs_at;
use crate::text::parse_u16;
use crate::text::replace;
use crate::text::replace_in;
use crate::text::stands_at;
use crate::text::string_of;
use crate::text::u16_of;

verus! {

/// The variable for the target host.
pub const VAR_HOST: &'static str = "{target_host}";

/// The variable for the target port.
pub const VAR_PORT: &'static str = "{target_port}";

/// Why a text is no template.
#[derive(Clone, Copy, Debug, PartialEq, Eq, Structural)]
pub enum TemplateError {
    /// There is no `://`: the text is no absolute URI.
    NotAbsolute,
    /// The path and query hold no host variable.
    MissingHost,
    /// The path and query hold no port variable after the host variable.
    MissingPort,
}

/// Why a request path does not match a template.
#[derive(Clone, Copy, Debug, PartialEq, Eq, Structural)]
pub enum MatchError {
    /// The path does not start with the literal prefix.
    Prefix,
    /// The literal between the variables is empty or not found.
    Separator,
    /// The path does not end with the literal suffix.
    Suffix,
    /// The host or the port is empty.
    Empty,
    /// The port is no 16-bit number.
    Port,
}

/// The literal parts of a template.
pub struct Literals {
    pub authority: Seq<char>,
    pub prefix: Seq<char>,
    pub middle: Seq<char>,
    pub suffix: Seq<char>,
}

/// The literal parts of the template that `raw` writes.
pub open spec fn spec_parse(raw: Seq<char>) -> Result<Literals, TemplateError> {
    match after_scheme(raw) {
        None => Err(TemplateError::NotAbsolute),
        Some(rest) => {
            let pq = path_part(rest);
            match find(pq, VAR_HOST@) {
                None => Err(TemplateError::MissingHost),
                Some(host_at) => {
                    let tail = pq.skip(host_at + VAR_HOST@.len());
                    match find(tail, VAR_PORT@) {
                        None => Err(TemplateError::MissingPort),
                        Some(port_at) => Ok(
                            Literals {
                                authority: authority_part(rest),
                                prefix: pq.take(host_at),
                                middle: tail.take(port_at),
                                suffix: tail.skip(port_at + VAR_PORT@.len()),
                            },
                        ),
                    }
                },
            }
        },
    }
}

/// The percent-encoding of a colon.
pub open spec fn colon_code() -> Seq<char> {
    seq!['%', '3', 'A']
}

/// The host as it stands in a path: colons are percent-encoded.
pub open spec fn encoded_host(host: Seq<char>) -> Seq<char> {
    replace(host, seq![':'], colon_code())
}

/// The host that a path holds.
pub open spec fn decoded_host(host: Seq<char>) -> Seq<char> {
    replace(host, colon_code(), seq![':'])
}

/// The path that the template gives for `host` and `port`.
pub open spec fn spec_expand(t: Literals, host: Seq<char>, port: u16) -> Seq<char> {
    t.prefix + encoded_host(host) + t.middle + decimal(port as nat) + t.suffix
}

/// The host and the port that `path` holds by the template.
pub open spec fn spec_match(t: Literals, path: Seq<char>) -> Result<(Seq<char>, u16), MatchError> {
    if !occurs_at(path, t.prefix, 0) {
        Err(MatchError::Prefix)
    } else {
        let rest = path.skip(t.prefix.len() as int);
        match find(rest, t.middle) {
            None => Err(MatchError::Separator),
            Some(host_end) => if t.middle.len() == 0 {
                Err(MatchError::Separator)
            } else {
                let host = rest.take(host_end);
                let after = rest.skip(host_end + t.middle.len());
                if !occurs_at(after, t.suffix, after.len() - t.suffix.len()) {
                    Err(MatchError::Suffix)
                } else {
                    let port = after.take(after.len() - t.suffix.len());
                    if host.len() == 0 || port.len() == 0 {
                        Err(MatchError::Empty)
                    } else {
                        match parse_u16(port) {
                            None => Err(MatchError::Port),
                            Some(p) => Ok((decoded_host(host), p)),
                        }
                    }
                }
            },
        }
    }
}

/// A parsed proxy URI template.
#[derive(Clone, Debug)]
pub struct Template {
    /// The full text of the template.
    pub raw: String,
    /// Authority (host[:port]) that the client connects to and the server expects
    /// in the `:authority` pseudo-header.
    pub authority: String,
    /// Literal text of the path and query before the host variable.
    pub prefix: Vec<char>,
    /// Literal text between the host variable and the port variable.
    pub middle: Vec<char>,
    /// Literal text after the port variable.
    pub suffix: Vec<char>,
}

impl Template {
    /// The literal parts of this template.
    pub open spec fn literals(&self) -> Literals {
        Literals {
            authority: self.authority@,
            prefix: self.prefix@,
            middle: self.middle@,
            suffix: self.suffix@,
        }
    }

    /// Parse a template.
    pub fn parse(raw: &str) -> (r: Result<Self, TemplateError>)
        ensures
            match r {
                Ok(t) => t.raw@ == raw@ && spec_parse(raw@) == Ok::<_, TemplateError>(t.literals()),
                Err(e) => spec_parse(raw@) == Err::<Literals, _>(e),
            },
    {
        let chars = chars_of(raw);
        let (authority, pq) = match split_uri(&chars) {
            None => return Err(TemplateError::NotAbsolute),
            Some(parts) => parts,
        };
        let var_host = chars_of(VAR_HOST);
        let var_port = chars_of(VAR_PORT);
        proof {
            lemma_find_none(pq@, VAR_HOST@);
        }
        let host_at: usize = match find_in(&pq, &var_host) {
            None => return Err(TemplateError::MissingHost),
            Some(i) => i,
        };
        let n: usize = pq.len();
        let tail = slice_subrange(&pq, host_at + var_host.len(), n);
        assert(tail@ =~= pq@.skip(host_at + VAR_HOST@.len()));
        proof {
            lemma_find_none(tail@, VAR_PORT@);
        }
        let port_at: usize = match find_in(tail, &var_port) {
            None => return Err(TemplateError::MissingPort),
            Some(i) => i,
        };
        let m: usize = tail.len();
        let prefix = char_vec(&pq, 0, host_at);
        let middle = char_vec(tail, 0, port_at);
        let suffix = char_vec(tail, port_at + var_port.len(), m);
        let a = string_of(&authority, 0, authority.len());
        assert(a@ =~= authority@);
        assert(prefix@ =~= pq@.take(host_at as int));
        assert(middle@ =~= tail@.take(port_at as int));
        assert(suffix@ =~= tail@.skip(port_at + VAR_PORT@.len()));
        Ok(Template { raw: raw.to_owned(), authority: a, prefix, middle, suffix })
    }

    /// Expand into a request `:path` (client side). Colons of an IPv6 literal are
    /// percent-encoded.
    pub fn expand(&self, host: &str, port: u16) -> (r: String)
        ensures
            r@ == spec_expand(self.literals(), host@, port),
    {
        let colon: [char; 1] = [':'];
        let code: [char; 3] = ['%', '3', 'A'];
        assert(colon@ =~= seq![':']);
        assert(code@ =~= colon_code());
        let mut out: Vec<char> = self.prefix.clone();
        assert(out@ =~= self.prefix@);
        let mut h = replace_in(&chars_of(host), &colon, &code);
        let mut m = self.middle.clone();
        assert(m@ =~= self.middle@);
        let mut p = decimal_u16(port);
        let mut s = self.suffix.clone();
        assert(s@ =~= self.suffix@);
        out.append(&mut h);
        out.append(&mut m);
        out.append(&mut p);
        out.append(&mut s);
        assert(out@ =~= spec_expand(self.literals(), host@, port));
        let r = string_of(&out, 0, out.len());
        assert(r@ =~= out@);
        r
    }

    /// Match a request `:path` against the template, recovering the target host
    /// and port (server side).
    pub fn match_path(&self, path: &str) -> (r: Result<(String, u16), MatchError>)
        ensures
            match r {
                Ok((host, port)) => spec_match(self.literals(), path@) == Ok::<_, MatchError>(
                    (host@, port),
                ),
                Err(e) => spec_match(self.literals(), path@) == Err::<(Seq<char>, u16), _>(e),
            },
    {
        let colon: [char; 1] = [':'];
        let code: [char; 3] = ['%', '3', 'A'];
        assert(colon@ =~= seq![':']);
        assert(code@ =~= colon_code());
        let chars = chars_of(path);
        let n: usize = chars.len();
        if !stands_at(&chars, &self.prefix, 0) {
            return Err(MatchError::Prefix);
        }
        let rest = slice_subrange(&chars, self.prefix.len(), n);
        assert(rest@ =~= chars@.skip(self.prefix@.len() as int));
        proof {
            lemma_find_none(rest@, self.middle@);
        }
        let host_end: usize = match find_in(rest, &self.middle) {
            None => return Err(MatchError::Separator),
            Some(i) => i,
        };
        if self.middle.len() == 0 {
            return Err(MatchError::Separator);
        }
        let m: usize = rest.len();
        let host = slice_subrange(rest, 0, host_end);
        assert(host@ =~= rest@.take(host_end as int));
        let after = slice_subrange(rest, host_end + self.middle.len(), m);
        assert(after@ =~= rest@.skip(host_end + self.middle@.len()));
        let k: usize = after.len();
        if self.suffix.len() > k || !stands_at(after, &self.suffix, k - self.suffix.len()) {
            return Err(MatchError::Suffix);
        }
        let port = slice_subrange(after, 0, k - self.suffix.len());
        assert(port@ =~= after@.take(after@.len() - self.suffix@.len()));
        if host.len() == 0 || port.len() == 0 {
            return Err(MatchError::Empty);
        }
        match u16_of(port) {
            None => Err(MatchError::Port),
            Some(p) => {
                let h = replace_in(host, &code, &colon);
                let s = string_of(&h, 0, h.len());
                assert(s@ =~= h@);
                Ok((s, p))
            },
        }
    }
}

/// Decoding an encoded host gives the host back, unless it holds a literal `%3A`.
pub proof fn lemma_host_roundtrip(host: Seq<char>)
    requires
        find(host, colon_code()) is None,
    ensures
        decoded_host(encoded_host(host)) == host,
    decreases host.len(),
{
    let colon = seq![':'];
    let code = colon_code();
    lemma_find_none(host, code);
    let e = encoded_host(host);
    if host.len() == 0 {
    } else {
        let t = host.skip(1);
        assert forall|i: int| !#[trigger] occurs_at(t, code, i) by {
            if occurs_at(t, code, i) {
                assert(host.subrange(i + 1, i + 4) =~= t.subrange(i, i + 3));
                assert(occurs_at(host, code, i + 1));
            }
        }
        lemma_find_none(t, code);
        lemma_host_roundtrip(t);
        let et = encoded_host(t);
        if occurs_at(host, colon, 0) {
            assert(host.subrange(0, 1)[0] == ':');
            assert(e == code + et);
            assert(e.subrange(0, 3) =~= code);
            assert(e.skip(3) =~= et);
            assert(colon + t =~= host);
        } else {
            assert(e == seq![host[0]] + et);
            assert(!occurs_at(e, code, 0)) by {
                if occurs_at(e, code, 0) {
                    assert(e.subrange(0, 3)[0] == e[0]);
                    assert(e.subrange(0, 3)[1] == e[1]);
                    assert(e.subrange(0, 3)[2] == e[2]);
                    assert(et[0] == '3' && et[1] == 'A');
                    lemma_plain_head(t);
                    assert(t[0] == '3');
                    assert(et == seq![t[0]] + encoded_host(t.skip(1)));
                    assert(encoded_host(t.skip(1))[0] == 'A');
                    lemma_plain_head(t.skip(1));
                    assert(t.skip(1)[0] == 'A');
                    assert(host.subrange(0, 3) =~= code);
                    assert(occurs_at(host, code, 0));
                }
            }
            assert(e.skip(1) =~= et);
            assert(seq![host[0]] + t =~= host);
            if e.len() < 3 {
                assert(et.len() < 3);
                assert(decoded_host(et) == et);
                assert(decoded_host(e) == e);
            }
        }
    }
}

/// An encoded host that does not start with a percent sign starts like the host.
proof fn lemma_plain_head(host: Seq<char>)
    requires
        encoded_host(host).len() > 0,
        encoded_host(host)[0] != '%',
    ensures
        host.len() > 0,
        host[0] == encoded_host(host)[0],
        encoded_host(host) == seq![host[0]] + encoded_host(host.skip(1)),
{
    if host.len() > 0 && occurs_at(host, seq![':'], 0) {
        assert(encoded_host(host)[0] == colon_code()[0]);
    }
}

/// Matching an expanded path gives the host and the port back. This holds where
/// the separator is not empty and first occurs where the host ends, and where the
/// host is not empty and holds no literal `%3A`.
pub proof fn lemma_expand_match(t: Literals, host: Seq<char>, port: u16)
    requires
        t.middle.len() > 0,
        host.len() > 0,
        find(host, colon_code()) is None,
        forall|i: int|
            0 <= i < encoded_host(host).len() ==> !#[trigger] occurs_at(
                encoded_host(host) + t.middle + decimal(port as nat) + t.suffix,
                t.middle,
                i,
            ),
    ensures
        spec_match(t, spec_expand(t, host, port)) == Ok::<_, MatchError>((host, port)),
{
    let path = spec_expand(t, host, port);
    let e = encoded_host(host);
    let d = decimal(port as nat);
    assert(path.subrange(0, t.prefix.len() as int) =~= t.prefix);
    let rest = path.skip(t.prefix.len() as int);
    assert(rest =~= e + t.middle + d + t.suffix);
    let n = e.len() as int;
    assert(rest.subrange(n, n + t.middle.len()) =~= t.middle);
    lemma_find_is(rest, t.middle, n);
    assert(rest.take(n) =~= e);
    let after = rest.skip(n + t.middle.len());
    assert(after =~= d + t.suffix);
    let k = after.len() - t.suffix.len();
    assert(after.subrange(k, k + t.suffix.len()) =~= t.suffix);
    assert(after.take(k) =~= d);
    lemma_decimal_roundtrip(port);
    lemma_host_roundtrip(host);
    assert(e.len() > 0) by {
        if occurs_at(host, seq![':'], 0) {
        }
    }
}

/// A template is taken apart at its two variables: what stands before the first, between
/// them and behind the second are its literal parts.
pub proof fn lemma_template_parts(
    authority: Seq<char>,
    prefix: Seq<char>,
    middle: Seq<char>,
    suffix: Seq<char>,
)
    requires
        !authority.contains('/'),
        prefix.len() > 0,
        prefix[0] == '/',
        !prefix.contains('{'),
        !middle.contains('{'),
    ensures
        spec_parse(
            seq!['h', 't', 't', 'p', 's', ':', '/', '/'] + authority + (prefix + "{target_host}"@
                + middle + "{target_port}"@ + suffix),
        ) == Ok::<_, TemplateError>(Literals { authority, prefix, middle, suffix }),
{
    reveal_strlit("{target_host}");
    reveal_strlit("{target_port}");
    let h = "{target_host}"@;
    let p = "{target_port}"@;
    let pq = prefix + h + middle + p + suffix;
    assert(h.len() > 0 && h[0] == '{');
    assert(p.len() > 0 && p[0] == '{');
    assert(pq[0] == prefix[0]);
    lemma_uri_parts(authority, pq);
    lemma_variables_found(prefix, h, middle, p, suffix);
}

/// Two patterns that begin with a brace are found one behind the other.
proof fn lemma_variables_found(
    prefix: Seq<char>,
    h: Seq<char>,
    middle: Seq<char>,
    p: Seq<char>,
    suffix: Seq<char>,
)
    requires
        !prefix.contains('{'),
        !middle.contains('{'),
        h.len() > 0,
        h[0] == '{',
        p.len() > 0,
        p[0] == '{',
    ensures
        ({
            let pq = prefix + h + middle + p + suffix;
            let tail = pq.skip((prefix.len() + h.len()) as int);
            &&& find(pq, h) == Some(prefix.len() as int)
            &&& find(tail, p) == Some(middle.len() as int)
            &&& pq.take(prefix.len() as int) == prefix
            &&& tail.take(middle.len() as int) == middle
            &&& tail.skip((middle.len() + p.len()) as int) == suffix
        }),
{
    let pq = prefix + h + middle + p + suffix;
    let after = h + middle + p + suffix;
    assert(pq =~= prefix + after);
    assert(after.take(h.len() as int) =~= h);
    lemma_first_brace(prefix, after, h);
    let tail = pq.skip((prefix.len() + h.len()) as int);
    let behind = p + suffix;
    assert(tail =~= middle + behind);
    assert(behind.take(p.len() as int) =~= p);
    lemma_first_brace(middle, behind, p);
    assert(pq.take(prefix.len() as int) =~= prefix);
    assert(tail.take(middle.len() as int) =~= middle);
    assert(tail.skip((middle.len() + p.len()) as int) =~= suffix);
}

/// A pattern that begins with a brace is found behind a text without braces.
proof fn lemma_first_brace(a: Seq<char>, b: Seq<char>, pat: Seq<char>)
    requires
        !a.contains('{'),
        pat.len() > 0,
        pat[0] == '{',
        b.len() >= pat.len(),
        b.take(pat.len() as int) == pat,
    ensures
        find(a + b, pat) == Some(a.len() as int),
{
    let s = a + b;
    let n = a.len() as int;
    assert(s.subrange(n, n + pat.len()) =~= b.take(pat.len() as int));
    assert forall|j: int| 0 <= j < n implies !#[trigger] occurs_at(s, pat, j) by {
        if occurs_at(s, pat, j) {
            assert(s.subrange(j, j + pat.len())[0] == a[j]);
            assert(a.contains('{'));
        }
    }
    lemma_find_is(s, pat, n);
}

/// A URI with a path is taken apart behind its scheme and at its first slash.
proof fn lemma_uri_parts(authority: Seq<char>, path: Seq<char>)
    requires
        !authority.contains('/'),
        path.len() > 0,
        path[0] == '/',
    ensures
        ({
            let raw = seq!['h', 't', 't', 'p', 's', ':', '/', '/'] + authority + path;
            &&& after_scheme(raw) == Some(authority + path)
            &&& authority_part(authority + path) == authority
            &&& path_part(authority + path) == path
        }),
{
    let scheme = seq!['h', 't', 't', 'p', 's', ':', '/', '/'];
    let raw = scheme + authority + path;
    let mark = seq![':', '/', '/'];
    let rest = authority + path;
    let n = authority.len() as int;
    assert(raw.subrange(5, 8) =~= mark);
    assert forall|j: int| 0 <= j < 5 implies !#[trigger] occurs_at(raw, mark, j) by {
        assert(raw[j] == scheme[j]);
        if occurs_at(raw, mark, j) {
            assert(raw.subrange(j, j + 3)[0] == raw[j]);
        }
    }
    lemma_find_is(raw, mark, 5);
    assert(raw.skip(8) =~= rest);
    lemma_char_found(rest, '/');
    assert(rest[n] == '/');
    assert(rest.contains('/'));
    let i = find(rest, seq!['/'])->0;
    if i < n {
        assert(authority[i] == '/');
    }
    assert(i == n);
    assert(rest.take(n) =~= authority);
    assert(rest.skip(n) =~= path);
}

/// A URI whose path and query hold no brace has no variable, and one with the host variable
/// alone lacks the port.
pub proof fn lemma_variables_missing(authority: Seq<char>, path: Seq<char>, tail: Seq<char>)
    requires
        !authority.contains('/'),
        path.len() > 0,
        path[0] == '/',
        !path.contains('{'),
        !tail.contains('{'),
    ensures
        spec_parse(seq!['h', 't', 't', 'p', 's', ':', '/', '/'] + authority + path) == Err::<
            Literals,
            _,
        >(TemplateError::MissingHost),
        spec_parse(
            seq!['h', 't', 't', 'p', 's', ':', '/', '/'] + authority + (path + "{target_host}"@
                + tail),
        ) == Err::<Literals, _>(TemplateError::MissingPort),
{
    reveal_strlit("{target_host}");
    reveal_strlit("{target_port}");
    let h = "{target_host}"@;
    let p = "{target_port}"@;
    lemma_uri_parts(authority, path);
    lemma_no_brace(path, h);
    let pq = path + h + tail;
    lemma_uri_parts(authority, pq);
    assert(pq =~= path + (h + tail));
    assert((h + tail).take(h.len() as int) =~= h);
    lemma_first_brace(path, h + tail, h);
    assert(pq.skip((path.len() + h.len()) as int) =~= tail);
    lemma_no_brace(tail, p);
}

proof fn lemma_no_brace(s: Seq<char>, pat: Seq<char>)
    requires
        !s.contains('{'),
        pat.len() > 0,
        pat[0] == '{',
    ensures
        find(s, pat) is None,
{
    lemma_find_none(s, pat);
    assert forall|j: int| !#[trigger] occurs_at(s, pat, j) by {
        if occurs_at(s, pat, j) {
            assert(s.subrange(j, j + pat.len())[0] == s[j]);
        }
    }
}

/// A path that matches is made of the literal parts with a host and a port between them,
/// and these come out.
pub proof fn lemma_matched_parts(t: Literals, path: Seq<char>)
    ensures
        spec_match(t, path) matches Ok((host, port)) ==> exists|h: Seq<char>, d: Seq<char>|
            {
                &&& path == #[trigger] (t.prefix + h + t.middle + d + t.suffix)
                &&& h.len() > 0
                &&& parse_u16(d) == Some(port)
                &&& host == decoded_host(h)
            },
{
    if let Ok((host, port)) = spec_match(t, path) {
        let rest = path.skip(t.prefix.len() as int);
        lemma_find_none(rest, t.middle);
        let i = find(rest, t.middle)->0;
        let h = rest.take(i);
        let after = rest.skip(i + t.middle.len());
        let k = after.len() - t.suffix.len();
        let d = after.take(k);
        assert(path.subrange(0, t.prefix.len() as int) == t.prefix);
        assert(rest.subrange(i, i + t.middle.len()) == t.middle);
        assert(after.subrange(k, k + t.suffix.len()) == t.suffix);
        assert(after =~= d + t.suffix);
        assert(rest =~= h + t.middle + after);
        assert(path =~= t.prefix + rest);
        assert(path =~= t.prefix + h + t.middle + d + t.suffix);
    }
}

/// A host is put into a path as it is, but for colons, for each of which `%3A` is put; a
/// host without a percent sign is taken out as it is.
pub proof fn lemma_host_in_path(a: Seq<char>, b: Seq<char>)
    ensures
        !a.contains(':') ==> encoded_host(a) == a,
        encoded_host(a + seq![':'] + b) == encoded_host(a) + "%3A"@ + encoded_host(b),
        !a.contains('%') ==> decoded_host(a) == a,
{
    reveal_strlit("%3A");
    let code = colon_code();
    assert("%3A"@ =~= code);
    let colon = seq![':'];
    lemma_replace_char(a, b, ':', code);
    lemma_replace_char(a, colon, ':', code);
    lemma_replace_char(a + colon, b, ':', code);
    if !a.contains('%') {
        lemma_no_percent(a);
    }
}

proof fn lemma_no_percent(s: Seq<char>)
    requires
        !s.contains('%'),
    ensures
        decoded_host(s) == s,
    decreases s.len(),
{
    if s.len() >= 3 {
        let t = s.skip(1);
        assert(s.contains(s[0]));
        assert(!t.contains('%')) by {
            if t.contains('%') {
                let k = choose|k: int| 0 <= k < t.len() && t[k] == '%';
                assert(s[k + 1] == '%');
            }
        }
        lemma_no_percent(t);
        if occurs_at(s, colon_code(), 0) {
            assert(s.subrange(0, 3)[0] == colon_code()[0]);
        }
        assert(seq![s[0]] + t =~= s);
    }
}

/// The path for a host without colons and a port is the literal parts with the two between
/// them.
pub proof fn lemma_expanded(t: Literals, host: Seq<char>, port: u16)
    ensures
        !host.contains(':') ==> spec_expand(t, host, port) == t.prefix + host + t.middle + decimal(
            port as nat,
        ) + t.suffix,
{
    lemma_host_in_path(host, host);
}

/// What does not match: a path without the literal prefix, and any path where nothing
/// stands between the two variables.
pub proof fn lemma_not_matched(t: Literals, path: Seq<char>)
    ensures
        path.len() < t.prefix.len() || path.take(t.prefix.len() as int) != t.prefix
            ==> spec_match(t, path) == Err::<(Seq<char>, u16), _>(MatchError::Prefix),
        t.middle.len() == 0 ==> spec_match(t, path) is Err,
{
    if path.len() >= t.prefix.len() {
        assert(path.subrange(0, t.prefix.len() as int) =~= path.take(t.prefix.len() as int));
    }
}

/// How a path is judged, part by part: behind the literal prefix the host reaches to the
/// first separator, and behind that the port to the literal suffix.
pub proof fn lemma_match_written_out(t: Literals, h: Seq<char>, after: Seq<char>, d: Seq<char>)
    requires
        t.middle.len() > 0,
        forall|i: int|
            0 <= i < h.len() ==> !#[trigger] occurs_at(h + t.middle + after, t.middle, i),
    ensures
        (after.len() < t.suffix.len() || after.skip(after.len() - t.suffix.len()) != t.suffix)
            ==> spec_match(t, t.prefix + h + t.middle + after) == Err::<(Seq<char>, u16), _>(
            MatchError::Suffix,
        ),
        after == d + t.suffix ==> spec_match(t, t.prefix + h + t.middle + after) == if h.len() == 0
            || d.len() == 0 {
            Err::<(Seq<char>, u16), _>(MatchError::Empty)
        } else {
            match parse_u16(d) {
                None => Err(MatchError::Port),
                Some(p) => Ok((decoded_host(h), p)),
            }
        },
{
    let path = t.prefix + h + t.middle + after;
    assert(path.subrange(0, t.prefix.len() as int) =~= t.prefix);
    let rest = path.skip(t.prefix.len() as int);
    assert(rest =~= h + t.middle + after);
    let n = h.len() as int;
    assert(rest.subrange(n, n + t.middle.len()) =~= t.middle);
    lemma_find_is(rest, t.middle, n);
    assert(rest.take(n) =~= h);
    assert(rest.skip(n + t.middle.len()) =~= after);
    let k = after.len() - t.suffix.len();
    if k >= 0 {
        assert(after.subrange(k, k + t.suffix.len()) =~= after.skip(k));
    }
    if after == d + t.suffix {
        assert(after.skip(k) =~= t.suffix);
        assert(after.take(k) =~= d);
    }
}

/// A path without the separator behind the prefix does not match.
pub proof fn lemma_separator_missing(t: Literals, rest: Seq<char>)
    requires
        forall|i: int| !#[trigger] occurs_at(rest, t.middle, i),
    ensures
        spec_match(t, t.prefix + rest) == Err::<(Seq<char>, u16), _>(MatchError::Separator),
{
    let path = t.prefix + rest;
    assert(path.subrange(0, t.prefix.len() as int) =~= t.prefix);
    assert(path.skip(t.prefix.len() as int) =~= rest);
    lemma_find_none(rest, t.middle);
}

/// A text without `://` is no template.
pub proof fn lemma_template_scheme(raw: Seq<char>)
    requires
        forall|j: int|
            0 <= j < raw.len() - 2 ==> !(#[trigger] raw[j] == ':' && raw[j + 1] == '/' && raw[j + 2]
                == '/'),
    ensures
        spec_parse(raw) == Err::<Literals, _>(TemplateError::NotAbsolute),
{
    lemma_no_scheme(raw);
}

} // verus!
