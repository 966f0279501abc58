//! Where a sync comes from or goes to: a local path or a remote target.
use vstd::prelude::*;

use crate::text;

verus! {

/// The port of a remote target.
pub const DEFAULT_PORT: u16 = 22;

/// A remote sync target.
#[derive(Debug, Clone)]
pub struct RemoteTarget {
    /// Remote user.
    pub user: String,
    /// Host name or address.
    pub host: String,
    /// Port.
    pub port: u16,
    /// Remote path: empty for the serve root, absolute with a leading slash,
    /// relative to the serve root otherwise.
    pub path: String,
}

/// A sync source or destination.
#[derive(Debug, Clone)]
pub enum Location {
    /// A local path.
    Local(String),
    /// A remote target.
    Remote(RemoteTarget),
}

/// The model of [`Location`].
pub enum LocationV {
    Local(Seq<char>),
    Remote { user: Seq<char>, host: Seq<char>, port: u16, path: Seq<char> },
}

impl View for Location {
    type V = LocationV;

    open spec fn view(&self) -> LocationV {
        match self {
            Location::Local(p) => LocationV::Local(p@),
            Location::Remote(r) => LocationV::Remote {
                user: r.user@,
                host: r.host@,
                port: r.port,
                path: r.path@,
            },
        }
    }
}

/// The text in front of the first `c`, or the whole text.
pub open spec fn before_first(s: Seq<char>, c: char) -> Seq<char> {
    s.take(text::first_of(s, c))
}

/// The text behind the first `c`, or nothing.
pub open spec fn behind_first(s: Seq<char>, c: char) -> Seq<char> {
    let i = text::first_of(s, c);
    if i < s.len() {
        s.skip(i + 1)
    } else {
        Seq::empty()
    }
}

/// Whether a text has a path separator.
pub open spec fn has_separator(s: Seq<char>) -> bool {
    s.contains('/') || s.contains('\\')
}

/// Whether a text begins like an unbracketed IPv6 address.
pub open spec fn bare_ipv6(s: Seq<char>) -> bool {
    s.len() >= 2 && s[0] == ':' && s[1] == ':'
}

/// The path of a target whose host ends at the first slash: it is absolute
/// when a colon stands right in front of that slash.
pub open spec fn slash_path(rest: Seq<char>) -> Seq<char> {
    let head = before_first(rest, '/');
    if !rest.contains('/') {
        Seq::empty()
    } else if head.len() > 0 && head.last() == ':' {
        seq!['/'] + behind_first(rest, '/')
    } else {
        behind_first(rest, '/')
    }
}

/// Host and path of what follows `user@`. The first colon separates them, or
/// the first slash when it comes first; the path is what follows, to the
/// letter. An address in brackets is taken as a whole, and one that begins with
/// two colons reaches up to the first slash.
pub open spec fn remote_of(rest: Seq<char>) -> (Seq<char>, Seq<char>) {
    let head = before_first(rest, '/');
    if head.len() > 0 && head[0] == '[' {
        let inner = head.skip(1);
        if inner.contains(']') {
            let host = before_first(inner, ']');
            let tail = behind_first(inner, ']');
            if tail.len() > 0 && tail[0] == ':' {
                (host, behind_first(rest.skip(1), ']').skip(1))
            } else {
                (host, slash_path(rest))
            }
        } else {
            (head, slash_path(rest))
        }
    } else if bare_ipv6(head) {
        (head, slash_path(rest))
    } else if head.contains(':') {
        (before_first(rest, ':'), behind_first(rest, ':'))
    } else {
        (head, behind_first(rest, '/'))
    }
}

/// The location that a text names: remote when it has the form `user@host`, with
/// no path separator in the user or the host.
pub open spec fn location_of(s: Seq<char>) -> LocationV {
    if !s.contains('@') {
        LocationV::Local(s)
    } else {
        let user = before_first(s, '@');
        let (host, path) = remote_of(behind_first(s, '@'));
        if has_separator(user) || has_separator(host) {
            LocationV::Local(s)
        } else {
            LocationV::Remote { user, host, port: DEFAULT_PORT, path }
        }
    }
}

/// Cut a text at the first `c`: what stands in front of it and behind it.
fn cut_at(s: &str, c: char) -> (r: (String, String, bool))
    ensures
        r.0@ == before_first(s@, c),
        r.1@ == behind_first(s@, c),
        r.2 == s@.contains(c),
{
    let chars = text::chars_of(s);
    let mut i: usize = 0;
    while i < chars.len() && chars[i] != c
        invariant
            i <= chars.len(),
            chars@ == s@,
            forall|j: int| 0 <= j < i ==> chars@[j] != c,
        decreases chars.len() - i,
    {
        i += 1;
    }
    proof {
        text::lemma_first_of(s@, c);
        text::lemma_first_of_is(s@, c, i as int);
        assert(s@.subrange(0, i as int) =~= s@.take(i as int));
        if i < s@.len() {
            assert(s@[i as int] == c);
            assert(s@.subrange(i + 1, s@.len() as int) =~= s@.skip(i + 1));
        }
    }
    let front = text::string_of(&chars, 0, i);
    if i < chars.len() {
        (front, text::string_of(&chars, i + 1, chars.len()), true)
    } else {
        (front, String::new(), false)
    }
}

/// A text without its first `n` characters.
fn skip_chars(s: &str, n: usize) -> (r: String)
    requires
        n <= s@.len(),
    ensures
        r@ == s@.skip(n as int),
{
    let chars = text::chars_of(s);
    assert(s@.subrange(n as int, s@.len() as int) =~= s@.skip(n as int));
    text::string_of(&chars, n, chars.len())
}

/// The path of a target whose host ends at the first slash.
fn path_at_slash(head: &str, behind: String, has_slash: bool) -> (r: String)
    ensures
        r@ == if !has_slash {
            Seq::empty()
        } else if head@.len() > 0 && head@.last() == ':' {
            seq!['/'] + behind@
        } else {
            behind@
        },
{
    if !has_slash {
        return String::new();
    }
    let chars = text::chars_of(head);
    if chars.len() > 0 && chars[chars.len() - 1] == ':' {
        let mut out = String::new();
        out.push('/');
        text::push_text(&mut out, behind.as_str());
        assert(out@ =~= seq!['/'] + behind@);
        out
    } else {
        behind
    }
}

/// Host and path of what follows `user@`.
pub fn parse_remote(rest: &str) -> (r: (String, String))
    ensures
        (r.0@, r.1@) == remote_of(rest@),
{
    let (head, behind, has_slash) = cut_at(rest, '/');
    let chars = text::chars_of(head.as_str());
    proof {
        text::lemma_first_of(rest@, '/');
    }
    if chars.len() > 0 && chars[0] == '[' {
        let inner = skip_chars(head.as_str(), 1);
        let (host, tail, closed) = cut_at(inner.as_str(), ']');
        if !closed {
            let path = path_at_slash(head.as_str(), behind, has_slash);
            return (head, path);
        }
        let tail_chars = text::chars_of(tail.as_str());
        if tail_chars.len() > 0 && tail_chars[0] == ':' {
            let all = skip_chars(rest, 1);
            let (_, after, _) = cut_at(all.as_str(), ']');
            proof {
                lemma_prefix_tail(rest@.skip(1), inner@, ']');
            }
            let path = skip_chars(after.as_str(), 1);
            return (host, path);
        }
        let path = path_at_slash(head.as_str(), behind, has_slash);
        return (host, path);
    }
    if chars.len() >= 2 && chars[0] == ':' && chars[1] == ':' {
        let path = path_at_slash(head.as_str(), behind, has_slash);
        return (head, path);
    }
    if text::has_char(head.as_str(), ':') {
        let (host, path, _) = cut_at(rest, ':');
        (host, path)
    } else {
        (head, behind)
    }
}

proof fn lemma_prefix_tail(whole: Seq<char>, front: Seq<char>, c: char)
    requires
        front.is_prefix_of(whole),
        front.contains(c),
    ensures
        text::first_of(whole, c) == text::first_of(front, c),
        behind_first(whole, c).len() >= behind_first(front, c).len(),
{
    text::lemma_first_of(front, c);
    text::lemma_first_of(whole, c);
    let i = text::first_of(front, c);
    assert(i < front.len());
    assert(whole[i] == front[i]);
    assert forall|j: int| 0 <= j < i implies whole[j] != c by {
        assert(whole[j] == front[j]);
    }
    text::lemma_first_of_is(whole, c, i);
}

impl Location {
    /// Read a source or destination.
    pub fn parse(s: &str) -> (r: Location)
        ensures
            r@ == location_of(s@),
    {
        let (user, rest, has_at) = cut_at(s, '@');
        if !has_at {
            return Location::Local(text::copy_str(s));
        }
        if text::has_char(user.as_str(), '/') || text::has_char(user.as_str(), '\\') {
            return Location::Local(text::copy_str(s));
        }
        let (host, path) = parse_remote(rest.as_str());
        if text::has_char(host.as_str(), '/') || text::has_char(host.as_str(), '\\') {
            return Location::Local(text::copy_str(s));
        }
        Location::Remote(RemoteTarget { user, host, port: DEFAULT_PORT, path })
    }

    /// The location as it is shown to a user.
    pub fn show(&self) -> (r: String)
        ensures
            r@ == shown(self@),
    {
        match self {
            Location::Local(p) => text::copy_str(p.as_str()),
            Location::Remote(r) => r.show(),
        }
    }
}

/// A location as it is shown to a user.
pub open spec fn shown(l: LocationV) -> Seq<char> {
    match l {
        LocationV::Local(p) => p,
        LocationV::Remote { user, host, path, .. } => user + seq!['@'] + host + seq![':'] + path,
    }
}

impl RemoteTarget {
    /// The target as it is shown to a user: without its port.
    pub fn show(&self) -> (r: String)
        ensures
            r@ == shown(
                (LocationV::Remote {
                    user: self.user@,
                    host: self.host@,
                    port: self.port,
                    path: self.path@,
                }),
            ),
            r@ == self.user@ + seq!['@'] + self.host@ + seq![':'] + self.path@,
    {
        let mut out = text::copy_str(self.user.as_str());
        out.push('@');
        text::push_text(&mut out, self.host.as_str());
        out.push(':');
        text::push_text(&mut out, self.path.as_str());
        assert(out@ =~= self.user@ + seq!['@'] + self.host@ + seq![':'] + self.path@);
        out
    }
}

/// The port never comes from the text, and a remote user or host never holds a
/// path separator.
pub proof fn law_ports_are_not_in_the_text(s: Seq<char>)
    ensures
        location_of(s) matches LocationV::Remote { user, host, port, .. } ==> port == DEFAULT_PORT
            && !has_separator(user) && !has_separator(host) && user == before_first(s, '@'),
{
}

/// A path behind the colon of a plain host is taken to the letter.
pub proof fn law_paths_are_verbatim(user: Seq<char>, host: Seq<char>, path: Seq<char>)
    requires
        !user.contains('@') && !has_separator(user),
        !has_separator(host) && !host.contains(':'),
        host.len() > 0 ==> host[0] != '[',
        host.len() == 0 && path.len() > 0 ==> path[0] != ':',
    ensures
        location_of(user + seq!['@'] + host + seq![':'] + path) == (LocationV::Remote {
            user,
            host,
            port: DEFAULT_PORT,
            path,
        }),
{
    let rest = host + seq![':'] + path;
    let s = user + seq!['@'] + host + seq![':'] + path;
    assert(s =~= user + seq!['@'] + rest);
    let n = user.len() as int;
    assert(s[n] == '@');
    assert forall|j: int| 0 <= j < n implies s[j] != '@' by {
        assert(user.contains(user[j]));
    }
    text::lemma_first_of_is(s, '@', n);
    assert(s.contains('@'));
    assert(before_first(s, '@') =~= user);
    assert(behind_first(s, '@') =~= rest);
    let m = host.len() as int;
    assert(rest[m] == ':');
    assert forall|j: int| 0 <= j < m implies rest[j] != ':' && rest[j] != '/' by {
        assert(host.contains(host[j]));
        assert(rest[j] == host[j]);
    }
    text::lemma_first_of_is(rest, ':', m);
    assert(before_first(rest, ':') =~= host);
    assert(behind_first(rest, ':') =~= path);
    text::lemma_first_of(rest, '/');
    let head = before_first(rest, '/');
    let k = text::first_of(rest, '/');
    assert(k > m) by {
        if k <= m {
            if k < rest.len() {
                assert(rest[k] == '/');
            }
        }
    }
    assert(head[m] == ':');
    assert(head.contains(':'));
    if m > 0 {
        assert(head[0] == host[0]);
        assert(host.contains(host[0]));
    } else if head.len() > 1 {
        assert(head[1] == path[0]);
    }
}

/// A text without an at sign is a local path, and so is one with a path
/// separator in front of its first at sign.
pub proof fn law_paths_stay_local(s: Seq<char>, user: Seq<char>, rest: Seq<char>)
    requires
        !user.contains('@'),
        user.contains('/') || user.contains('\\'),
    ensures
        !s.contains('@') ==> location_of(s) == LocationV::Local(s),
        location_of(user + seq!['@'] + rest) == LocationV::Local(user + seq!['@'] + rest),
{
    let t = user + seq!['@'] + rest;
    lemma_cut(user, '@', rest);
    assert(t[user.len() as int] == '@');
}

/// Where a text is cut at its first separator.
proof fn lemma_cut(a: Seq<char>, c: char, b: Seq<char>)
    requires
        !a.contains(c),
    ensures
        text::first_of(a + seq![c] + b, c) == a.len(),
        before_first(a + seq![c] + b, c) == a,
        behind_first(a + seq![c] + b, c) == b,
        (a + seq![c] + b).contains(c),
{
    let t = a + seq![c] + b;
    assert(t[a.len() as int] == c);
    assert forall|i: int| 0 <= i < a.len() implies t[i] != c by {
        assert(t[i] == a[i]);
        assert(a.contains(a[i]));
    }
    text::lemma_first_of_is(t, c, a.len() as int);
    assert(t.take(a.len() as int) =~= a);
    assert(t.skip(a.len() as int + 1) =~= b);
}

/// A path behind the first slash of a plain host is taken below the serve root.
pub proof fn law_slashes_begin_a_relative_path(user: Seq<char>, host: Seq<char>, path: Seq<char>)
    requires
        !user.contains('@') && !user.contains('/') && !user.contains('\\'),
        !host.contains('/') && !host.contains('\\') && !host.contains(':'),
        host.len() > 0 ==> host[0] != '[',
    ensures
        location_of(user + seq!['@'] + host + seq!['/'] + path) == (LocationV::Remote {
            user,
            host,
            port: 22,
            path,
        }),
{
    let rest = host + seq!['/'] + path;
    assert(user + seq!['@'] + host + seq!['/'] + path =~= user + seq!['@'] + rest);
    lemma_cut(user, '@', rest);
    lemma_cut(host, '/', path);
}

/// An address in brackets is taken as a whole, colons and all, and what follows
/// the colon behind it is the path, to the letter.
pub proof fn law_bracketed_addresses_are_kept_whole(
    user: Seq<char>,
    host: Seq<char>,
    path: Seq<char>,
)
    requires
        !user.contains('@') && !user.contains('/') && !user.contains('\\'),
        !host.contains(']') && !host.contains('/') && !host.contains('\\'),
    ensures
        location_of(user + seq!['@', '['] + host + seq![']', ':'] + path) == (LocationV::Remote {
            user,
            host,
            port: 22,
            path,
        }),
{
    let rest = seq!['['] + host + seq![']', ':'] + path;
    let whole = user + seq!['@', '['] + host + seq![']', ':'] + path;
    assert(whole =~= user + seq!['@'] + rest);
    lemma_cut(user, '@', rest);
    lemma_bracketed(host, path);
}

/// What follows an at sign and begins with a bracket.
proof fn lemma_bracketed(host: Seq<char>, path: Seq<char>)
    requires
        !host.contains(']') && !host.contains('/'),
    ensures
        remote_of(seq!['['] + host + seq![']', ':'] + path) == (host, path),
{
    let rest = seq!['['] + host + seq![']', ':'] + path;
    let n = host.len() as int;
    let head = before_first(rest, '/');
    let behind = seq![':'] + path;
    assert(rest.skip(1) =~= host + seq![']'] + behind);
    lemma_cut(host, ']', behind);
    assert(behind.skip(1) =~= path);
    text::lemma_first_of(rest, '/');
    let k = text::first_of(rest, '/');
    assert forall|i: int| 0 <= i < n + 3 implies #[trigger] rest[i] != '/' by {
        if 1 <= i < n + 1 {
            assert(rest[i] == host[i - 1]);
            assert(host.contains(host[i - 1]));
        }
    }
    assert(k >= n + 3) by {
        if k < n + 3 {
            assert(rest[k] == '/');
        }
    }
    let tail = head.skip(n + 2);
    assert(head.skip(1) =~= host + seq![']'] + tail);
    lemma_cut(host, ']', tail);
    assert(tail[0] == rest[n + 2]);
    assert(rest[n + 2] == ':');
    assert(head[0] == '[');
}

/// What is shown of a target reads back as that target, but for its port, which
/// is never shown.
pub proof fn law_shown_targets_read_back(
    user: Seq<char>,
    host: Seq<char>,
    port: u16,
    path: Seq<char>,
)
    requires
        !user.contains('@') && !user.contains('/') && !user.contains('\\'),
        !host.contains('/') && !host.contains('\\') && !host.contains(':'),
        host.len() > 0,
        host[0] != '[',
    ensures
        location_of(shown((LocationV::Remote { user, host, port, path }))) == (LocationV::Remote {
            user,
            host,
            port: 22,
            path,
        }),
        shown(LocationV::Local(path)) == path,
{
    law_paths_are_verbatim(user, host, path);
}

} // verus!
