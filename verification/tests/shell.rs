//! Words for a shell.

use throughline::shell::{quoted_for_shell, word_for_shell};

#[test]
fn a_word_is_quoted_where_it_has_to_be() {
    assert_eq!(word_for_shell("203.0.113.7"), "203.0.113.7");
    assert_eq!(word_for_shell("2001:db8::7"), "2001:db8::7");
    assert_eq!(word_for_shell(""), "''");
    assert_eq!(word_for_shell("a b"), "'a b'");
    assert_eq!(word_for_shell("$(id)"), "'$(id)'");
    assert_eq!(word_for_shell("caf\u{e9}"), "'caf\u{e9}'");
    assert_eq!(quoted_for_shell("plain"), "'plain'");
    assert_eq!(quoted_for_shell("it's"), "'it'\\''s'");
}
