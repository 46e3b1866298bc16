//! What the local server answers.

use throughline::http::{request_target, response, route, Route};

#[test]
fn the_target_is_the_second_word_of_the_request() {
    assert_eq!(request_target("GET /api/snapshot HTTP/1.1\r\n"), "/api/snapshot");
    assert_eq!(request_target("GET\r\n"), "/");
    assert_eq!(request_target(""), "/");
}

#[test]
fn two_routes_are_there_and_nothing_else() {
    assert_eq!(route("/"), Route::Index);
    assert_eq!(route("/index.html"), Route::Index);
    assert_eq!(route("/api/snapshot"), Route::Snapshot);
    assert_eq!(route("/api/snapshot/"), Route::Missing);
    assert_eq!(route(""), Route::Missing);
}

#[test]
fn a_query_changes_nothing() {
    assert_eq!(route("/?a=b"), Route::Index);
    assert_eq!(route("/api/snapshot?x?y"), Route::Snapshot);
    assert_eq!(route("?/api/snapshot"), Route::Missing);
}

#[test]
fn the_length_is_counted_in_bytes() {
    let head = "Cache-Control: no-store\r\nX-Content-Type-Options: nosniff\r\n\
                Content-Security-Policy: default-src 'self'; style-src 'self' 'unsafe-inline'; \
                script-src 'self' 'unsafe-inline'\r\nConnection: close\r\n\r\n";
    assert_eq!(
        response(Route::Missing, "not found"),
        format!(
            "HTTP/1.1 404 Not Found\r\nContent-Type: text/plain; charset=utf-8\r\n\
             Content-Length: 9\r\n{head}not found"
        )
    );
    assert!(response(Route::Snapshot, "\u{e9}\u{20ac}").contains("Content-Length: 5\r\n"));
    assert!(response(Route::Index, "").starts_with("HTTP/1.1 200 OK\r\nContent-Type: text/html"));
}
