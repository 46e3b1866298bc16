//! What the local server answers.
//!
//! The surface is two routes, read with `GET` on loopback. A screen that
//! enumerates every process on the machine and everything it talks to is a
//! reconnaissance report; it does not get a listening port on a network
//! interface.

use vstd::prelude::*;
use vstd::string::*;
use vstd::utf8::*;

use crate::num::{dec, push_dec};
use crate::text::{copy, find_char, head_field, lemma_find_char_is, same, words, words_of};

verus! {

/// The port the server listens on where none is asked for.
pub const DEFAULT_PORT: u16 = 7644;

/// What a request asks for.
#[derive(Debug, Clone, Copy, PartialEq, Eq, Structural)]
pub enum Route {
    /// The page itself.
    Index,
    /// What this machine is talking to.
    Snapshot,
    /// Nothing that is there.
    Missing,
}

/// The target of a request line: its second word.
pub open spec fn target(line: Seq<char>) -> Seq<char> {
    if words(line).len() > 1 {
        words(line)[1]
    } else {
        "/"@
    }
}

/// The target of a request line, or `/` where it names none.
pub fn request_target(line: &str) -> (r: String)
    ensures
        r@ == target(line@),
{
    let w: Vec<String> = words_of(line);
    assert(words(line@).len() == w@.len());
    if w.len() > 1 {
        copy(w[1].as_str())
    } else {
        String::from_str("/")
    }
}

/// What a target asks for: the query behind it does not matter.
pub open spec fn route_of(target: Seq<char>) -> Route {
    let path = target.take(find_char(target, '?'));
    if path == "/"@ || path == "/index.html"@ {
        Route::Index
    } else if path == "/api/snapshot"@ {
        Route::Snapshot
    } else {
        Route::Missing
    }
}

/// What a target asks for.
pub fn route(target: &str) -> (r: Route)
    ensures
        r == route_of(target@),
{
    let path: String = head_field(target, '?');
    if same(path.as_str(), "/") || same(path.as_str(), "/index.html") {
        Route::Index
    } else if same(path.as_str(), "/api/snapshot") {
        Route::Snapshot
    } else {
        Route::Missing
    }
}

impl Route {
    pub open spec fn status_line(self) -> Seq<char> {
        match self {
            Route::Index | Route::Snapshot => "200 OK"@,
            Route::Missing => "404 Not Found"@,
        }
    }

    pub open spec fn media_type(self) -> Seq<char> {
        match self {
            Route::Index => "text/html; charset=utf-8"@,
            Route::Snapshot => "application/json; charset=utf-8"@,
            Route::Missing => "text/plain; charset=utf-8"@,
        }
    }

    /// The status of the answer.
    pub fn status(self) -> (r: &'static str)
        ensures
            r@ == self.status_line(),
    {
        match self {
            Route::Index | Route::Snapshot => "200 OK",
            Route::Missing => "404 Not Found",
        }
    }

    /// The type of what is answered.
    pub fn content_type(self) -> (r: &'static str)
        ensures
            r@ == self.media_type(),
    {
        match self {
            Route::Index => "text/html; charset=utf-8",
            Route::Snapshot => "application/json; charset=utf-8",
            Route::Missing => "text/plain; charset=utf-8",
        }
    }
}

/// A whole response. Its length is that of the body in bytes.
pub open spec fn response_for(route: Route, body: Seq<char>) -> Seq<char> {
    "HTTP/1.1 "@ + route.status_line() + "\r\nContent-Type: "@ + route.media_type()
        + "\r\nContent-Length: "@ + dec(encode_utf8(body).len())
        + "\r\nCache-Control: no-store\r\nX-Content-Type-Options: nosniff\r\nContent-Security-Policy: default-src 'self'; style-src 'self' 'unsafe-inline'; script-src 'self' 'unsafe-inline'\r\nConnection: close\r\n\r\n"@
        + body
}

/// A whole response.
pub fn response(route: Route, body: &str) -> (r: String)
    ensures
        r@ == response_for(route, body@),
{
    let mut out: String = String::from_str("HTTP/1.1 ");
    out.append(route.status());
    out.append("\r\nContent-Type: ");
    out.append(route.content_type());
    out.append("\r\nContent-Length: ");
    push_dec(&mut out, body.as_bytes().len() as u64);
    out.append(
        "\r\nCache-Control: no-store\r\nX-Content-Type-Options: nosniff\r\nContent-Security-Policy: default-src 'self'; style-src 'self' 'unsafe-inline'; script-src 'self' 'unsafe-inline'\r\nConnection: close\r\n\r\n",
    );
    out.append(body);
    out
}

// ---------------------------------------------------------------------------
// Laws
// ---------------------------------------------------------------------------

/// What stands behind a question mark does not change what is answered.
pub proof fn a_query_does_not_change_the_route(path: Seq<char>, query: Seq<char>)
    requires
        forall|i: int| 0 <= i < path.len() ==> #[trigger] path[i] != '?',
    ensures
        route_of(path + seq!['?'] + query) == route_of(path),
{
    let whole = path + seq!['?'] + query;
    assert forall|j: int| 0 <= j < path.len() implies #[trigger] whole[j] != '?' by {
        assert(whole[j] == path[j]);
    }
    lemma_find_char_is(whole, '?', path.len() as int);
    lemma_find_char_is(path, '?', path.len() as int);
    assert(whole.take(path.len() as int) =~= path);
    assert(path.take(path.len() as int) =~= path);
}

/// Three paths are answered and no other: the page under either of its names, and
/// the snapshot.
pub proof fn only_what_is_there_is_answered(path: Seq<char>)
    requires
        forall|i: int| 0 <= i < path.len() ==> #[trigger] path[i] != '?',
    ensures
        route_of(path) is Index <==> path == "/"@ || path == "/index.html"@,
        route_of(path) is Snapshot <==> path == "/api/snapshot"@,
        route_of(path) is Missing <==> path != "/"@ && path != "/index.html"@ && path
            != "/api/snapshot"@,
        route_of(path).status_line() == "200 OK"@ <==> !(route_of(path) is Missing),
{
    lemma_find_char_is(path, '?', path.len() as int);
    assert(path.take(path.len() as int) =~= path);
    reveal_strlit("/");
    reveal_strlit("/index.html");
    reveal_strlit("/api/snapshot");
    reveal_strlit("200 OK");
    reveal_strlit("404 Not Found");
    assert("/"@.len() == 1 && "/index.html"@.len() == 11 && "/api/snapshot"@.len() == 13);
    assert("200 OK"@.len() == 6 && "404 Not Found"@.len() == 13);
}

/// The target of a request is its second word, whatever the method and the
/// version.
pub proof fn a_request_names_its_target(method: Seq<char>, path: Seq<char>, version: Seq<char>)
    requires
        crate::text::is_word(method),
        crate::text::is_word(path),
        crate::text::is_word(version),
    ensures
        target(method + seq![' '] + path + seq![' '] + version) == path,
        route_of(target(method)) is Index,
{
    crate::text::lemma_one_word(method);
    crate::text::lemma_word_more(method, path);
    crate::text::lemma_word_more(method + seq![' '] + path, version);
    assert(words(method + seq![' '] + path + seq![' '] + version)[1] == path);
    reveal_strlit("/");
    only_what_is_there_is_answered("/"@);
}

/// A response says how many bytes its body has, what the body is, and then gives
/// the body and nothing else behind the blank line.
pub proof fn a_response_tells_its_own_length(route: Route, body: Seq<char>)
    ensures
        exists|front: Seq<char>, back: Seq<char>|
            #![trigger told_length(front, body, back)]
            response_for(route, body) == told_length(front, body, back),
        ({
            let r = response_for(route, body);
            r.len() >= body.len() + 4 && r.skip(r.len() - body.len()) == body && r.subrange(
                r.len() - body.len() - 4,
                r.len() - body.len(),
            ) == "\r\n\r\n"@
        }),
{
    let front = "HTTP/1.1 "@ + route.status_line() + "\r\nContent-Type: "@ + route.media_type();
    let back =
        "\r\nCache-Control: no-store\r\nX-Content-Type-Options: nosniff\r\nContent-Security-Policy: default-src 'self'; style-src 'self' 'unsafe-inline'; script-src 'self' 'unsafe-inline'\r\nConnection: close\r\n\r\n"@;
    let r = response_for(route, body);
    assert(r == told_length(front, body, back));
    reveal_strlit("\r\n\r\n");
    reveal_strlit(
        "\r\nCache-Control: no-store\r\nX-Content-Type-Options: nosniff\r\nContent-Security-Policy: default-src 'self'; style-src 'self' 'unsafe-inline'; script-src 'self' 'unsafe-inline'\r\nConnection: close\r\n\r\n",
    );
    assert(r.skip(r.len() - body.len()) =~= body);
    assert(r.subrange(r.len() - body.len() - 4, r.len() - body.len()) =~= "\r\n\r\n"@);
}

/// A response with the length of its body, and what stands around that.
pub open spec fn told_length(front: Seq<char>, body: Seq<char>, back: Seq<char>) -> Seq<char> {
    front + "\r\nContent-Length: "@ + dec(encode_utf8(body).len()) + back + body
}

/// The page is HTML, the snapshot JSON, and that nothing is there is plain text.
pub proof fn a_route_has_its_own_kind_of_text(route: Route)
    ensures
        route is Index <==> route.media_type() == "text/html; charset=utf-8"@,
        route is Snapshot <==> route.media_type() == "application/json; charset=utf-8"@,
        route is Missing <==> route.media_type() == "text/plain; charset=utf-8"@,
{
    reveal_strlit("text/html; charset=utf-8");
    reveal_strlit("application/json; charset=utf-8");
    reveal_strlit("text/plain; charset=utf-8");
    assert("text/html; charset=utf-8"@.len() == 24);
    assert("application/json; charset=utf-8"@.len() == 31);
    assert("text/plain; charset=utf-8"@.len() == 25);
}

} // verus!
