//! Hosts and ports in authorities and targets.

use vstd::prelude::*;
use vstd::slice::slice_subrange;

use crate::text::chars_of;
use crate::text::decimal;
use crate::text::find;
use crate::text::find_in;
use crate::text::lemma_char_found;
use crate::text::lemma_decimal_roundtrip;
use crate::text::lemma_find_is;
use crate::text::lemma_find_none;
use crate::text::lemma_rfind_is;
use crate::text::occurs_at;
use crate::text::parse_u16;
use crate::text::rfind;
use crate::text::rfind_in;
use crate::text::string_of;
use crate::text::u16_of;

verus! {

/// What stands between a leading bracket and the first closing one.
pub open spec fn bracketed(s: Seq<char>) -> Option<Seq<char>> {
    if s.len() > 0 && s[0] == '[' {
        match find(s.skip(1), seq![']']) {
            Some(end) => Some(s.skip(1).take(end)),
            None => None,
        }
    } else {
        None
    }
}

/// The host of an authority: the bracketed literal that it starts with, or what
/// stands before the last colon, or all of it.
pub open spec fn spec_host_of(authority: Seq<char>) -> Seq<char> {
    match bracketed(authority) {
        Some(host) => host,
        None => match rfind(authority, seq![':']) {
            Some(i) => authority.take(i),
            None => authority,
        },
    }
}

/// The host of an authority, without its optional port and without the brackets
/// of an IPv6 literal.
pub fn host_of(authority: &str) -> (r: String)
    ensures
        r@ == spec_host_of(authority@),
{
    let chars = chars_of(authority);
    let n: usize = chars.len();
    let close: [char; 1] = [']'];
    let colon: [char; 1] = [':'];
    assert(close@ =~= seq![']']);
    assert(colon@ =~= seq![':']);
    if n > 0 && chars[0] == '[' {
        let rest = slice_subrange(&chars, 1, n);
        assert(rest@ =~= chars@.skip(1));
        proof {
            lemma_find_none(rest@, close@);
        }
        if let Some(end) = find_in(rest, &close) {
            assert(rest@.subrange(0, end as int) =~= rest@.take(end as int));
            return string_of(rest, 0, end);
        }
    }
    match rfind_in(&chars, &colon) {
        Some(i) => {
            assert(chars@.subrange(0, i as int) =~= chars@.take(i as int));
            string_of(&chars, 0, i)
        },
        None => {
            assert(chars@.subrange(0, n as int) =~= chars@);
            string_of(&chars, 0, n)
        },
    }
}

/// Why a text is no `host:port`.
#[derive(Clone, Copy, Debug, PartialEq, Eq, Structural)]
pub enum HostPortError {
    /// A leading bracket is not closed before a port.
    Brackets,
    /// There is no colon.
    NoPort,
    /// What follows the host is no port number.
    BadPort,
}

/// The host and the port of a host and the text of a port.
pub open spec fn with_port(host: Seq<char>, port: Seq<char>) -> Result<
    (Seq<char>, u16),
    HostPortError,
> {
    match parse_u16(port) {
        Some(p) => Ok((host, p)),
        None => Err(HostPortError::BadPort),
    }
}

/// The host and the port that `host:port` or `[ipv6]:port` writes.
pub open spec fn spec_split_host_port(s: Seq<char>) -> Result<(Seq<char>, u16), HostPortError> {
    if s.len() > 0 && s[0] == '[' {
        let rest = s.skip(1);
        match find(rest, seq![']', ':']) {
            None => Err(HostPortError::Brackets),
            Some(i) => with_port(rest.take(i), rest.skip(i + 2)),
        }
    } else {
        match rfind(s, seq![':']) {
            None => Err(HostPortError::NoPort),
            Some(i) => with_port(s.take(i), s.skip(i + 1)),
        }
    }
}

fn host_and_port(s: &[char], host_end: usize, port_start: usize) -> (r: Result<
    (String, u16),
    HostPortError,
>)
    requires
        host_end <= port_start <= s@.len(),
    ensures
        match r {
            Ok((host, port)) => with_port(s@.take(host_end as int), s@.skip(port_start as int))
                == Ok::<_, HostPortError>((host@, port)),
            Err(e) => with_port(s@.take(host_end as int), s@.skip(port_start as int)) == Err::<
                (Seq<char>, u16),
                _,
            >(e),
        },
{
    let port = slice_subrange(s, port_start, s.len());
    assert(port@ =~= s@.skip(port_start as int));
    match u16_of(port) {
        Some(p) => {
            assert(s@.subrange(0, host_end as int) =~= s@.take(host_end as int));
            Ok((string_of(s, 0, host_end), p))
        },
        None => Err(HostPortError::BadPort),
    }
}

/// Split `host:port` or `[ipv6]:port`.
pub fn split_host_port(s: &str) -> (r: Result<(String, u16), HostPortError>)
    ensures
        match r {
            Ok((host, port)) => spec_split_host_port(s@) == Ok::<_, HostPortError>((host@, port)),
            Err(e) => spec_split_host_port(s@) == Err::<(Seq<char>, u16), _>(e),
        },
{
    let chars = chars_of(s);
    let n: usize = chars.len();
    let close: [char; 2] = [']', ':'];
    let colon: [char; 1] = [':'];
    assert(close@ =~= seq![']', ':']);
    assert(colon@ =~= seq![':']);
    if n > 0 && chars[0] == '[' {
        let rest = slice_subrange(&chars, 1, n);
        assert(rest@ =~= chars@.skip(1));
        proof {
            lemma_find_none(rest@, close@);
        }
        return match find_in(rest, &close) {
            None => Err(HostPortError::Brackets),
            Some(i) => host_and_port(rest, i, i + 2),
        };
    }
    match rfind_in(&chars, &colon) {
        None => Err(HostPortError::NoPort),
        Some(i) => {
            proof {
                lemma_colon_position(chars@, i as int);
            }
            host_and_port(&chars, i, i + 1)
        },
    }
}

proof fn lemma_colon_position(s: Seq<char>, i: int)
    requires
        rfind(s, seq![':']) == Some(i),
    ensures
        0 <= i < s.len(),
{
    assert(exists|k: int| crate::text::is_last_at(s, seq![':'], k));
    assert(crate::text::is_last_at(s, seq![':'], i));
}

proof fn lemma_last_colon(host: Seq<char>, port: u16)
    ensures
        rfind(host + seq![':'] + decimal(port as nat), seq![':']) == Some(host.len() as int),
{
    let digits = decimal(port as nat);
    let s = host + seq![':'] + digits;
    let colon = seq![':'];
    let n = host.len() as int;
    lemma_decimal_roundtrip(port);
    crate::text::lemma_decimal_digits(port as nat);
    assert(s.subrange(n, n + 1) =~= colon);
    assert forall|j: int| n < j implies !#[trigger] occurs_at(s, colon, j) by {
        if occurs_at(s, colon, j) {
            assert(s.subrange(j, j + 1)[0] == digits[j - n - 1]);
        }
    }
    lemma_rfind_is(s, colon, n);
}

/// Splitting `host:port` gives the host and the port back.
pub proof fn lemma_host_port_roundtrip(host: Seq<char>, port: u16)
    requires
        host.len() == 0 || host[0] != '[',
    ensures
        spec_split_host_port(host + seq![':'] + decimal(port as nat)) == Ok::<_, HostPortError>(
            (host, port),
        ),
        spec_host_of(host + seq![':'] + decimal(port as nat)) == host,
{
    let s = host + seq![':'] + decimal(port as nat);
    let n = host.len() as int;
    lemma_last_colon(host, port);
    lemma_decimal_roundtrip(port);
    assert(s.take(n) =~= host);
    assert(s.skip(n + 1) =~= decimal(port as nat));
    assert(s[0] == if host.len() == 0 { ':' } else { host[0] });
}

/// Splitting `[host]:port` gives the host and the port back.
pub proof fn lemma_bracketed_roundtrip(host: Seq<char>, port: u16)
    requires
        !host.contains(']'),
    ensures
        spec_split_host_port(seq!['['] + host + seq![']', ':'] + decimal(port as nat)) == Ok::<
            _,
            HostPortError,
        >((host, port)),
        spec_host_of(seq!['['] + host + seq![']', ':'] + decimal(port as nat)) == host,
{
    let digits = decimal(port as nat);
    let s = seq!['['] + host + seq![']', ':'] + digits;
    let rest = s.skip(1);
    let n = host.len() as int;
    let both = seq![']', ':'];
    let close = seq![']'];
    lemma_decimal_roundtrip(port);
    assert(rest =~= host + both + digits);
    assert(rest.subrange(n, n + 2) =~= both);
    assert(rest.subrange(n, n + 1) =~= close);
    assert forall|j: int| 0 <= j < n implies !#[trigger] occurs_at(rest, both, j) by {
        if occurs_at(rest, both, j) {
            assert(rest.subrange(j, j + 2)[0] == host[j]);
            assert(host.contains(']'));
        }
    }
    assert forall|j: int| 0 <= j < n implies !#[trigger] occurs_at(rest, close, j) by {
        if occurs_at(rest, close, j) {
            assert(rest.subrange(j, j + 1)[0] == host[j]);
            assert(host.contains(']'));
        }
    }
    lemma_find_is(rest, both, n);
    lemma_find_is(rest, close, n);
    assert(rest.take(n) =~= host);
    assert(rest.skip(n + 2) =~= digits);
}

/// An authority without a colon and without a bracket in front is its own host, and a
/// bracketed literal without a port gives what stands in the brackets.
pub proof fn lemma_host_without_port(host: Seq<char>)
    ensures
        !host.contains(':') && (host.len() == 0 || host[0] != '[') ==> spec_host_of(host) == host,
        !host.contains(']') ==> spec_host_of(seq!['['] + host + seq![']']) == host,
{
    lemma_char_found(host, ':');
    if !host.contains(']') {
        let s = seq!['['] + host + seq![']'];
        let rest = s.skip(1);
        let n = host.len() as int;
        assert(rest =~= host + seq![']']);
        lemma_char_found(rest, ']');
        assert(rest[n] == ']');
        let i = find(rest, seq![']'])->0;
        assert(rest.contains(']'));
        if i < n {
            assert(host[i] == ']');
        }
        assert(i == n);
        assert(rest.take(n) =~= host);
    }
}

/// The host of an authority with a colon, and without a bracket in front, is what stands
/// before the last colon; so is that of a `host:port`, where a number must follow the colon.
/// Without a colon there is no port.
pub proof fn lemma_split_at_last_colon(host: Seq<char>, tail: Seq<char>)
    requires
        host.len() == 0 || host[0] != '[',
        !tail.contains(':'),
    ensures
        spec_host_of(host + seq![':'] + tail) == host,
        spec_split_host_port(host + seq![':'] + tail) == match parse_u16(tail) {
            Some(port) => Ok::<_, HostPortError>((host, port)),
            None => Err(HostPortError::BadPort),
        },
        tail.len() == 0 || tail[0] != '[' ==> spec_split_host_port(tail) == Err::<
            (Seq<char>, u16),
            _,
        >(HostPortError::NoPort),
{
    let s = host + seq![':'] + tail;
    let n = host.len() as int;
    lemma_char_found(s, ':');
    lemma_char_found(tail, ':');
    assert(s[n] == ':');
    assert(s.contains(':'));
    let i = rfind(s, seq![':'])->0;
    if i > n {
        assert(tail[i - n - 1] == ':');
    }
    assert(i == n);
    assert(s.take(n) =~= host);
    assert(s.skip(n + 1) =~= tail);
    assert(s[0] == if host.len() == 0 {
        ':'
    } else {
        host[0]
    });
}

/// An open bracket in front must be closed before a port.
pub proof fn lemma_open_bracket(s: Seq<char>)
    requires
        s.len() > 0,
        s[0] == '[',
        forall|i: int| 0 <= i < s.len() - 1 ==> !(#[trigger] s[i] == ']' && s[i + 1] == ':'),
    ensures
        spec_split_host_port(s) == Err::<(Seq<char>, u16), _>(HostPortError::Brackets),
{
    let rest = s.skip(1);
    let both = seq![']', ':'];
    lemma_find_none(rest, both);
    assert forall|j: int| !#[trigger] occurs_at(rest, both, j) by {
        if occurs_at(rest, both, j) {
            assert(rest.subrange(j, j + 2)[0] == s[j + 1]);
            assert(rest.subrange(j, j + 2)[1] == s[j + 2]);
        }
    }
}

/// A bracketed literal in front of an authority is its host, whatever follows.
pub proof fn lemma_bracketed_host(host: Seq<char>, tail: Seq<char>)
    requires
        !host.contains(']'),
    ensures
        spec_host_of(seq!['['] + host + seq![']'] + tail) == host,
{
    let s = seq!['['] + host + seq![']'] + tail;
    let rest = s.skip(1);
    let n = host.len() as int;
    assert(rest =~= host + seq![']'] + tail);
    lemma_char_found(rest, ']');
    assert(rest[n] == ']');
    assert(rest.contains(']'));
    let i = find(rest, seq![']'])->0;
    if i < n {
        assert(host[i] == ']');
    }
    assert(i == n);
    assert(rest.take(n) =~= host);
}

/// An open bracket that is not closed is a character like any other.
pub proof fn lemma_unclosed_host(s: Seq<char>)
    requires
        !s.contains(']'),
    ensures
        match rfind(s, seq![':']) {
            Some(i) => spec_host_of(s) == s.take(i),
            None => spec_host_of(s) == s,
        },
{
    if s.len() > 0 {
        let rest = s.skip(1);
        lemma_char_found(rest, ']');
        if rest.contains(']') {
            let k = choose|k: int| 0 <= k < rest.len() && rest[k] == ']';
            assert(s[k + 1] == ']');
        }
    }
}

/// A bracketed host ends at the first bracket that is followed by a colon, and a number
/// must follow that.
pub proof fn lemma_bracketed_split(host: Seq<char>, tail: Seq<char>)
    requires
        forall|i: int|
            0 <= i < host.len() ==> !(#[trigger] host[i] == ']' && i + 1 < host.len() && host[i + 1]
                == ':'),
    ensures
        spec_split_host_port(seq!['['] + host + seq![']', ':'] + tail) == match parse_u16(tail) {
            Some(port) => Ok::<_, HostPortError>((host, port)),
            None => Err(HostPortError::BadPort),
        },
{
    let s = seq!['['] + host + seq![']', ':'] + tail;
    let rest = s.skip(1);
    let both = seq![']', ':'];
    let n = host.len() as int;
    assert(rest =~= host + both + tail);
    assert(rest.subrange(n, n + 2) =~= both);
    assert forall|j: int| 0 <= j < n implies !#[trigger] occurs_at(rest, both, j) by {
        if occurs_at(rest, both, j) {
            assert(rest.subrange(j, j + 2)[0] == host[j]);
            assert(rest.subrange(j, j + 2)[1] == rest[j + 1]);
            if j + 1 < n {
                assert(rest[j + 1] == host[j + 1]);
            } else {
                assert(rest[j + 1] == both[0]);
            }
        }
    }
    lemma_find_is(rest, both, n);
    assert(rest.take(n) =~= host);
    assert(rest.skip(n + 2) =~= tail);
}

} // verus!
