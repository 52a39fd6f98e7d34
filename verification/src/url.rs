//! URLs that arrive over the channel: which may be opened in a browser, and
//! which lead to a port of the sending machine.

use vstd::prelude::*;

use crate::text;
use crate::text::{chars_of, chars_stand_at, parse_u32};

verus! {

/// A web URL's default port and what follows its scheme; nothing for other
/// schemes.
pub open spec fn web_parts(url: Seq<char>) -> Option<(u16, Seq<char>)> {
    if text::starts_with(url, "http://"@) {
        Some((80, url.skip("http://"@.len() as int)))
    } else if text::starts_with(url, "https://"@) {
        Some((443, url.skip("https://"@.len() as int)))
    } else {
        None
    }
}

/// A URL that a browser may be asked to open: http or https.
pub open spec fn web(url: Seq<char>) -> bool {
    web_parts(url) is Some
}

/// The part of `s` before its path, query or fragment.
pub open spec fn authority(s: Seq<char>) -> Seq<char>
    decreases s.len(),
{
    if s.len() == 0 || s[0] == '/' || s[0] == '?' || s[0] == '#' {
        Seq::empty()
    } else {
        seq![s[0]] + authority(s.skip(1))
    }
}

/// What follows the name of the local machine; nothing for other hosts.
pub open spec fn after_loopback(auth: Seq<char>) -> Option<Seq<char>> {
    if text::starts_with(auth, "localhost"@) {
        Some(auth.skip("localhost"@.len() as int))
    } else if text::starts_with(auth, "127.0.0.1"@) {
        Some(auth.skip("127.0.0.1"@.len() as int))
    } else if text::starts_with(auth, "[::1]"@) {
        Some(auth.skip("[::1]"@.len() as int))
    } else {
        None
    }
}

/// The port named behind a host, or the default one.
pub open spec fn named_port(s: Seq<char>, default: u16) -> Option<u16> {
    if s.len() == 0 {
        Some(default)
    } else if s[0] != ':' {
        None
    } else {
        match text::parsed_u32(s.skip(1)) {
            Some(p) if 0 < p < 0x1_0000 => Some(p as u16),
            _ => None,
        }
    }
}

/// The port that a web URL names on the machine it is used on.
pub open spec fn loopback_port_of(url: Seq<char>) -> Option<u16> {
    match web_parts(url) {
        None => None,
        Some((default, rest)) => match after_loopback(authority(rest)) {
            None => None,
            Some(s) => named_port(s, default),
        },
    }
}

/// The default port of a web URL and the position behind its scheme.
fn web_start(cs: &[char]) -> (r: Option<(u16, usize)>)
    ensures
        match web_parts(cs@) {
            None => r is None,
            Some((port, rest)) => r matches Some((p, at)) && p == port && at <= cs@.len()
                && cs@.skip(at as int) == rest,
        },
{
    proof {
        reveal_strlit("http://");
        reveal_strlit("https://");
    }
    if chars_stand_at(cs, 0, chars_of("http://").as_slice()) {
        return Some((80, 7));
    }
    if chars_stand_at(cs, 0, chars_of("https://").as_slice()) {
        return Some((443, 8));
    }
    None
}

/// Whether the URL is one that a browser may be asked to open.
pub fn is_web(url: &str) -> (r: bool)
    ensures
        r == web(url@),
{
    web_start(chars_of(url).as_slice()).is_some()
}

/// The length of an authority is where its end stands.
proof fn lemma_authority(s: Seq<char>, n: int)
    requires
        0 <= n <= s.len(),
        forall|i: int| 0 <= i < n ==> s[i] != '/' && s[i] != '?' && s[i] != '#',
        n == s.len() || s[n] == '/' || s[n] == '?' || s[n] == '#',
    ensures
        authority(s) == s.take(n),
    decreases n,
{
    if n == 0 {
        assert(s.take(0) =~= Seq::empty());
    } else {
        assert forall|i: int| 0 <= i < n - 1 implies s.skip(1)[i] != '/' && s.skip(1)[i] != '?'
            && s.skip(1)[i] != '#' by {
            assert(s.skip(1)[i] == s[i + 1]);
        }
        if n < s.len() {
            assert(s.skip(1)[n - 1] == s[n]);
        }
        lemma_authority(s.skip(1), n - 1);
        assert(seq![s[0]] + s.skip(1).take(n - 1) =~= s.take(n));
    }
}

/// The position behind the name of the local machine at the start of `auth`.
fn loopback_end(auth: &[char]) -> (r: Option<usize>)
    ensures
        match after_loopback(auth@) {
            None => r is None,
            Some(rest) => r matches Some(at) && at <= auth@.len() && auth@.skip(at as int) == rest,
        },
{
    proof {
        reveal_strlit("localhost");
        reveal_strlit("127.0.0.1");
        reveal_strlit("[::1]");
    }
    if chars_stand_at(auth, 0, chars_of("localhost").as_slice()) {
        return Some(9);
    }
    if chars_stand_at(auth, 0, chars_of("127.0.0.1").as_slice()) {
        return Some(9);
    }
    if chars_stand_at(auth, 0, chars_of("[::1]").as_slice()) {
        return Some(5);
    }
    None
}

/// The port that a web URL names on the machine it is used on; None for URLs
/// that lead elsewhere.
pub fn loopback_port(url: &str) -> (r: Option<u16>)
    ensures
        r == loopback_port_of(url@),
{
    let cs = chars_of(url);
    let (default, at) = web_start(cs.as_slice())?;
    let n: usize = cs.len();
    let mut end: usize = at;
    let ghost rest = cs@.skip(at as int);
    while end < n && cs[end] != '/' && cs[end] != '?' && cs[end] != '#'
        invariant
            at <= end <= n == cs@.len(),
            rest == cs@.skip(at as int),
            forall|i: int|
                0 <= i < end - at ==> rest[i] != '/' && rest[i] != '?' && rest[i] != '#',
        ensures
            at <= end <= n,
            forall|i: int|
                0 <= i < end - at ==> rest[i] != '/' && rest[i] != '?' && rest[i] != '#',
            end == n || rest[end - at] == '/' || rest[end - at] == '?' || rest[end - at] == '#',
        decreases n - end,
    {
        assert(rest[end - at] == cs@[end as int]);
        end += 1;
    }
    let auth = vstd::slice::slice_subrange(cs.as_slice(), at, end);
    proof {
        lemma_authority(rest, end - at);
        assert(auth@ =~= rest.take(end - at));
    }
    let host_end = loopback_end(auth)?;
    if host_end == auth.len() {
        return Some(default);
    }
    assert(auth@.skip(host_end as int)[0] == auth@[host_end as int]);
    if auth[host_end] != ':' {
        return None;
    }
    let digits = vstd::slice::slice_subrange(auth, host_end + 1, auth.len());
    assert(digits@ =~= auth@.skip(host_end as int).skip(1));
    match parse_u32(digits) {
        Some(p) => if 0 < p && p < 0x1_0000 {
            Some(p as u16)
        } else {
            None
        },
        None => None,
    }
}

/// Only web URLs lead to a port.
pub proof fn law_loopback_is_web(url: Seq<char>)
    ensures
        loopback_port_of(url) is Some ==> web(url),
{
}

/// The names by which a URL calls the machine it is used on.
pub open spec fn names_this_machine(host: Seq<char>) -> bool {
    host == "localhost"@ || host == "127.0.0.1"@ || host == "[::1]"@
}

/// What may follow an authority: nothing, a path, a query or a fragment.
pub open spec fn follows_authority(t: Seq<char>) -> bool {
    t.len() == 0 || t[0] == '/' || t[0] == '?' || t[0] == '#'
}

/// A web URL is its scheme and the rest.
proof fn lemma_web_parts(secure: bool, rest: Seq<char>)
    ensures
        web_parts((if secure { "https://"@ } else { "http://"@ }) + rest) == Some(
            (if secure { 443u16 } else { 80u16 }, rest),
        ),
{
    reveal_strlit("http://");
    reveal_strlit("https://");
    let scheme = if secure { "https://"@ } else { "http://"@ };
    text::lemma_prefixed(scheme, rest);
    if secure {
        assert((scheme + rest)[4] == 's');
        text::lemma_not_prefixed(scheme + rest, "http://"@, 4);
    }
}

/// The authority of a host, a plain port and what may follow them.
proof fn lemma_host_authority(host: Seq<char>, port: Seq<char>, t: Seq<char>)
    requires
        names_this_machine(host),
        forall|i: int| 0 <= i < port.len() ==> port[i] != '/' && port[i] != '?' && port[i] != '#',
        follows_authority(t),
    ensures
        authority(host + port + t) == host + port,
        port.len() == 0 || port[0] == ':' ==> after_loopback(host + port) == Some(port),
{
    reveal_strlit("localhost");
    reveal_strlit("127.0.0.1");
    reveal_strlit("[::1]");
    let s = host + port + t;
    let n = (host.len() + port.len()) as int;
    assert forall|i: int| 0 <= i < n implies s[i] != '/' && s[i] != '?' && s[i] != '#' by {
        if i < host.len() {
            assert(s[i] == host[i]);
        } else {
            assert(s[i] == port[i - host.len()]);
        }
    }
    if t.len() > 0 {
        assert(s[n] == t[0]);
    }
    lemma_authority(s, n);
    assert(s.take(n) =~= host + port);
    text::lemma_prefixed(host, port);
    let auth = host + port;
    assert(auth[0] == host[0]);
    if host == "127.0.0.1"@ {
        text::lemma_not_prefixed(auth, "localhost"@, 0);
    } else if host == "[::1]"@ {
        text::lemma_not_prefixed(auth, "localhost"@, 0);
        text::lemma_not_prefixed(auth, "127.0.0.1"@, 0);
    }
}

/// A port that a URL writes behind any name of its own machine is the port
/// it leads to, under either scheme and whatever follows; zero and numbers
/// beyond the last port lead nowhere.
pub proof fn law_written_port(secure: bool, host: Seq<char>, port: nat, t: Seq<char>)
    requires
        names_this_machine(host),
        follows_authority(t),
    ensures
        ({
            let scheme = if secure { "https://"@ } else { "http://"@ };
            let url = scheme + (host + (seq![':'] + text::decimal(port)) + t);
            loopback_port_of(url) == (if 0 < port < 65536 {
                Some(port as u16)
            } else {
                None
            })
        }),
{
    let digits = text::decimal(port);
    let behind = seq![':'] + digits;
    text::law_decimal_round_trip(port);
    assert forall|i: int| 0 <= i < behind.len() implies behind[i] != '/' && behind[i] != '?'
        && behind[i] != '#' by {
        if i > 0 {
            assert(text::is_digit(digits[i - 1]));
            assert(behind[i] == digits[i - 1]);
        }
    }
    lemma_web_parts(secure, host + behind + t);
    lemma_host_authority(host, behind, t);
    assert(behind.skip(1) =~= digits);
}

/// A URL that names its own machine and no port leads to the port that its
/// scheme stands for.
pub proof fn law_default_port(host: Seq<char>, t: Seq<char>)
    requires
        names_this_machine(host),
        follows_authority(t),
    ensures
        loopback_port_of("http://"@ + (host + t)) == Some(80u16),
        loopback_port_of("https://"@ + (host + t)) == Some(443u16),
{
    lemma_web_parts(false, host + t);
    lemma_web_parts(true, host + t);
    let none = Seq::<char>::empty();
    lemma_host_authority(host, none, t);
    assert(host + none + t =~= host + t);
    assert(host + none =~= host);
}

/// A URL that leads to a port is a web URL whose authority is a name of its
/// own machine, followed by nothing or by a colon and the port: no other
/// host, and no name that only begins like one, leads anywhere.
pub proof fn law_only_this_machine(url: Seq<char>)
    ensures
        loopback_port_of(url) matches Some(p) ==> exists|
            scheme: Seq<char>,
            host: Seq<char>,
            port: Seq<char>,
            t: Seq<char>,
        |
            {
                &&& url == #[trigger] (scheme + (host + port + t))
                &&& scheme == "http://"@ || scheme == "https://"@
                &&& names_this_machine(host)
                &&& follows_authority(t)
                &&& if port.len() > 0 {
                    port[0] == ':' && text::parsed_u32(port.skip(1)) == Some(p as u32)
                } else if scheme == "http://"@ {
                    p == 80
                } else {
                    p == 443
                }
            },
{
    if let Some(p) = loopback_port_of(url) {
        reveal_strlit("http://");
        reveal_strlit("https://");
        let secure = !text::starts_with(url, "http://"@);
        let scheme = if secure { "https://"@ } else { "http://"@ };
        let (default, rest) = web_parts(url)->0;
        text::lemma_prefix_apart(url, scheme);
        let auth = authority(rest);
        let n = lemma_authority_ends(rest);
        let host = if text::starts_with(auth, "localhost"@) {
            "localhost"@
        } else if text::starts_with(auth, "127.0.0.1"@) {
            "127.0.0.1"@
        } else {
            "[::1]"@
        };
        text::lemma_prefix_apart(auth, host);
        let port = auth.skip(host.len() as int);
        let t = rest.skip(n);
        assert(rest =~= host + port + t);
        assert(url == scheme + (host + port + t));
        assert("http://"@ != "https://"@) by {
            assert("http://"@.len() != "https://"@.len());
        }
    }
}

/// Where an authority ends: behind all of the text or before a path, a query
/// or a fragment.
proof fn lemma_authority_ends(s: Seq<char>) -> (n: int)
    ensures
        0 <= n <= s.len(),
        authority(s) == s.take(n),
        follows_authority(s.skip(n)),
    decreases s.len(),
{
    if s.len() == 0 || s[0] == '/' || s[0] == '?' || s[0] == '#' {
        assert(s.take(0) =~= Seq::empty());
        assert(s.skip(0) =~= s);
        0
    } else {
        let m = lemma_authority_ends(s.skip(1));
        assert(seq![s[0]] + s.skip(1).take(m) =~= s.take(m + 1));
        assert(s.skip(1).skip(m) =~= s.skip(m + 1));
        m + 1
    }
}

/// The URLs a browser may be asked to open are those that begin with
/// `http://` or `https://`, whatever follows.
pub proof fn law_web(url: Seq<char>, rest: Seq<char>)
    ensures
        web("http://"@ + rest),
        web("https://"@ + rest),
        web(url) ==> url == "http://"@ + url.skip(7) || url == "https://"@ + url.skip(8),
{
    lemma_web_parts(false, rest);
    lemma_web_parts(true, rest);
    if web(url) {
        reveal_strlit("http://");
        reveal_strlit("https://");
        if text::starts_with(url, "http://"@) {
            text::lemma_prefix_apart(url, "http://"@);
        } else {
            text::lemma_prefix_apart(url, "https://"@);
        }
    }
}

}
