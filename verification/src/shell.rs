//! Words for a shell: written so that they are read as they were meant.

use vstd::prelude::*;
use vstd::string::*;

use crate::text::{chars_of, join};

verus! {

/// Whether a shell takes a character for itself, wherever it stands in a word.
pub open spec fn harmless(c: char) -> bool {
    ||| 'a' <= c <= 'z'
    ||| 'A' <= c <= 'Z'
    ||| '0' <= c <= '9'
    ||| c == '-'
    ||| c == '_'
    ||| c == '.'
    ||| c == ':'
    ||| c == '/'
    ||| c == '@'
    ||| c == ','
    ||| c == '='
}

/// Whether a text is one word as it stands.
pub open spec fn bare(s: Seq<char>) -> bool {
    s.len() > 0 && forall|i: int| 0 <= i < s.len() ==> harmless(#[trigger] s[i])
}

/// A text as it stands between single quotes. Nothing has a meaning there but the
/// quote that ends it, so a quote of the text's own stands outside, behind a
/// backslash.
pub open spec fn quote_body(s: Seq<char>) -> Seq<char>
    decreases s.len(),
{
    if s.len() == 0 {
        seq![]
    } else if s[0] == '\'' {
        seq!['\'', '\\', '\'', '\''] + quote_body(s.skip(1))
    } else {
        seq![s[0]] + quote_body(s.skip(1))
    }
}

/// A text in single quotes.
pub open spec fn in_quotes(s: Seq<char>) -> Seq<char> {
    seq!['\''] + quote_body(s) + seq!['\'']
}

/// A text as one word of a command: in quotes, where it has to be.
pub open spec fn shell_word(s: Seq<char>) -> Seq<char> {
    if bare(s) {
        s
    } else {
        in_quotes(s)
    }
}

fn is_harmless(c: char) -> (r: bool)
    ensures
        r == harmless(c),
{
    ('a' <= c && c <= 'z') || ('A' <= c && c <= 'Z') || ('0' <= c && c <= '9') || c == '-' || c
        == '_' || c == '.' || c == ':' || c == '/' || c == '@' || c == ',' || c == '='
}

fn is_bare(v: &Vec<char>) -> (r: bool)
    ensures
        r == bare(v@),
{
    let mut i: usize = 0;
    while i < v.len()
        invariant
            i <= v@.len(),
            forall|k: int| 0 <= k < i ==> harmless(#[trigger] v@[k]),
        decreases v@.len() - i,
    {
        if !is_harmless(v[i]) {
            return false;
        }
        i += 1;
    }
    v.len() > 0
}

/// A text in single quotes, for a shell.
pub fn quoted_for_shell(s: &str) -> (r: String)
    ensures
        r@ == in_quotes(s@),
{
    let v: Vec<char> = chars_of(s);
    let ghost all = s@;
    let mut out: String = String::new();
    out.push('\'');
    let mut i: usize = 0;
    assert(all.skip(0) =~= all);
    assert(out@ + quote_body(all) =~= seq!['\''] + quote_body(all));
    while i < v.len()
        invariant
            i <= v@.len(),
            all == v@,
            out@ + quote_body(all.skip(i as int)) == seq!['\''] + quote_body(all),
        decreases v@.len() - i,
    {
        let ghost before = out@;
        let ghost t = all.skip(i as int);
        let ghost rest = quote_body(all.skip(i + 1));
        assert(t.skip(1) =~= all.skip(i + 1));
        assert(t[0] == all[i as int]);
        if v[i] == '\'' {
            out.push('\'');
            out.push('\\');
            out.push('\'');
            out.push('\'');
            assert(out@ + rest =~= before + (seq!['\'', '\\', '\'', '\''] + rest));
        } else {
            out.push(v[i]);
            assert(out@ + rest =~= before + (seq![v@[i as int]] + rest));
        }
        i += 1;
    }
    assert(all.skip(i as int) =~= Seq::<char>::empty());
    assert(out@ + Seq::<char>::empty() =~= out@);
    out.push('\'');
    assert(out@ =~= in_quotes(all));
    out
}

/// A text as one word of a command.
pub fn word_for_shell(s: &str) -> (r: String)
    ensures
        r@ == shell_word(s@),
{
    if is_bare(&chars_of(s)) {
        crate::text::copy(s)
    } else {
        quoted_for_shell(s)
    }
}

// ---------------------------------------------------------------------------
// Reading
// ---------------------------------------------------------------------------

/// Words, and those that follow.
pub open spec fn and_then_words(
    ws: Seq<Seq<char>>,
    rest: Option<Seq<Seq<char>>>,
) -> Option<Seq<Seq<char>>> {
    match rest {
        Some(r) => Some(ws + r),
        None => None,
    }
}

/// The word that was begun, if there is one.
pub open spec fn begun(word: Option<Seq<char>>) -> Seq<Seq<char>> {
    match word {
        Some(w) => seq![w],
        None => seq![],
    }
}

/// A word that was begun, or one that begins here, with a character more.
pub open spec fn grown(word: Option<Seq<char>>, c: char) -> Option<Seq<char>> {
    match word {
        Some(w) => Some(w.push(c)),
        None => Some(seq![c]),
    }
}

/// The words that a shell reads from the rest of a command, where a word was
/// begun or none, and between single quotes or not.
///
/// Between quotes every character is itself. Outside them a space ends a word, a
/// backslash takes the meaning from what follows it, and together with the end of
/// a line is nothing at all. A character that may mean something to a shell,
/// standing there bare, is none that can be relied on: such a command is not
/// read.
pub open spec fn words_from(s: Seq<char>, word: Option<Seq<char>>, quoted: bool) -> Option<
    Seq<Seq<char>>,
>
    decreases s.len(),
{
    if s.len() == 0 {
        if quoted {
            None
        } else {
            Some(begun(word))
        }
    } else if quoted {
        if s[0] == '\'' {
            words_from(s.skip(1), word, false)
        } else {
            words_from(s.skip(1), grown(word, s[0]), true)
        }
    } else if s[0] == ' ' {
        and_then_words(begun(word), words_from(s.skip(1), None, false))
    } else if s[0] == '\'' {
        words_from(
            s.skip(1),
            match word {
                Some(w) => Some(w),
                None => Some(seq![]),
            },
            true,
        )
    } else if s[0] == '\\' {
        if s.len() == 1 {
            None
        } else if s[1] == '\n' {
            words_from(s.skip(2), word, false)
        } else {
            words_from(s.skip(2), grown(word, s[1]), false)
        }
    } else if harmless(s[0]) {
        words_from(s.skip(1), grown(word, s[0]), false)
    } else {
        None
    }
}

/// The words that a shell reads from a command.
pub open spec fn shell_words(s: Seq<char>) -> Option<Seq<Seq<char>>> {
    words_from(s, None, false)
}

// ---------------------------------------------------------------------------
// What is written is read
// ---------------------------------------------------------------------------

proof fn lemma_bare_read(s: Seq<char>, rest: Seq<char>, w: Seq<char>)
    requires
        forall|i: int| 0 <= i < s.len() ==> harmless(#[trigger] s[i]),
    ensures
        words_from(s + rest, Some(w), false) == words_from(rest, Some(w + s), false),
        s.len() > 0 ==> words_from(s + rest, None, false) == words_from(rest, Some(s), false),
    decreases s.len(),
{
    let all = s + rest;
    if s.len() == 0 {
        assert(all =~= rest);
        assert(w + s =~= w);
    } else {
        let t = s.skip(1);
        assert(all[0] == s[0] && harmless(s[0]));
        assert(all.skip(1) =~= t + rest);
        assert forall|i: int| 0 <= i < t.len() implies harmless(#[trigger] t[i]) by {
            assert(t[i] == s[i + 1]);
        }
        lemma_bare_read(t, rest, w.push(s[0]));
        lemma_bare_read(t, rest, seq![s[0]]);
        assert(w.push(s[0]) + t =~= w + s);
        assert(seq![s[0]] + t =~= s);
    }
}

proof fn lemma_body_read(s: Seq<char>, rest: Seq<char>, w: Seq<char>)
    ensures
        words_from(quote_body(s) + (seq!['\''] + rest), Some(w), true) == words_from(
            rest,
            Some(w + s),
            false,
        ),
    decreases s.len(),
{
    let tail = seq!['\''] + rest;
    let all = quote_body(s) + tail;
    if s.len() == 0 {
        assert(all =~= tail);
        assert(tail.skip(1) =~= rest);
        assert(w + s =~= w);
    } else {
        let t = s.skip(1);
        lemma_body_read(t, rest, w.push(s[0]));
        assert(w.push(s[0]) + t =~= w + s);
        let later = quote_body(t) + tail;
        if s[0] == '\'' {
            assert(all =~= seq!['\'', '\\', '\'', '\''] + later);
            let a = all.skip(1);
            let b = a.skip(2);
            assert(a[0] == '\\' && a[1] == '\'');
            assert(b[0] == '\'');
            assert(b.skip(1) =~= later);
            assert(words_from(all, Some(w), true) == words_from(a, Some(w), false));
            assert(words_from(a, Some(w), false) == words_from(b, Some(w.push('\'')), false));
            assert(words_from(b, Some(w.push('\'')), false) == words_from(
                later,
                Some(w.push('\'')),
                true,
            ));
        } else {
            assert(all =~= seq![s[0]] + later);
            assert(all.skip(1) =~= later);
        }
    }
}

/// A text in quotes is read as the word it is.
pub proof fn lemma_quoted_read(s: Seq<char>, rest: Seq<char>)
    ensures
        words_from(in_quotes(s) + rest, None, false) == words_from(rest, Some(s), false),
{
    let all = in_quotes(s) + rest;
    assert(all =~= seq!['\''] + (quote_body(s) + (seq!['\''] + rest)));
    assert(all.skip(1) =~= quote_body(s) + (seq!['\''] + rest));
    lemma_body_read(s, rest, seq![]);
    assert(Seq::<char>::empty() + s =~= s);
}

/// A word is read as the text it was written for, whatever its characters.
pub proof fn a_word_reads_back(s: Seq<char>, rest: Seq<char>)
    ensures
        words_from(shell_word(s) + rest, None, false) == words_from(rest, Some(s), false),
        shell_words(shell_word(s)) == Some(seq![s]),
{
    let none = Seq::<char>::empty();
    assert(shell_word(s) + none =~= shell_word(s));
    if bare(s) {
        lemma_bare_read(s, rest, seq![]);
        lemma_bare_read(s, none, seq![]);
    } else {
        lemma_quoted_read(s, rest);
        lemma_quoted_read(s, none);
    }
}

/// Whether a piece of a command is read as these words, the last of which may
/// be followed by a space or by nothing.
pub open spec fn stands_for(piece: Seq<char>, ws: Seq<Seq<char>>) -> bool {
    &&& ws.len() > 0
    &&& forall|rest: Seq<char>|
        rest.len() == 0 || rest[0] == ' ' ==> #[trigger] words_from(piece + rest, None, false)
            == and_then_words(ws.drop_last(), words_from(rest, Some(ws.last()), false))
}

/// A word with one of the two spellings stands for itself.
pub proof fn lemma_one_word(piece: Seq<char>, w: Seq<char>)
    requires
        piece == shell_word(w) || piece == in_quotes(w),
    ensures
        stands_for(piece, seq![w]),
{
    let ws = seq![w];
    assert forall|rest: Seq<char>|
        rest.len() == 0 || rest[0] == ' ' implies #[trigger] words_from(piece + rest, None, false)
        == and_then_words(ws.drop_last(), words_from(rest, Some(ws.last()), false)) by {
        a_word_reads_back(w, rest);
        lemma_quoted_read(w, rest);
        assert(ws.drop_last() =~= seq![]);
        lemma_and_nothing(words_from(rest, Some(w), false));
    }
}

proof fn lemma_and_nothing(r: Option<Seq<Seq<char>>>)
    ensures
        and_then_words(seq![], r) == r,
{
    if let Some(x) = r {
        assert(Seq::<Seq<char>>::empty() + x =~= x);
    }
}

proof fn lemma_and_and(a: Seq<Seq<char>>, b: Seq<Seq<char>>, r: Option<Seq<Seq<char>>>)
    ensures
        and_then_words(a, and_then_words(b, r)) == and_then_words(a + b, r),
{
    if let Some(x) = r {
        assert(a + (b + x) =~= a + b + x);
    }
}

/// Whether a text only parts words: it begins with a space, and a word behind it
/// is read as if it stood alone.
pub open spec fn parts_words(sep: Seq<char>) -> bool {
    &&& sep.len() > 0
    &&& sep[0] == ' '
    &&& forall|rest: Seq<char>, w: Seq<char>| #[trigger]
        words_from(sep + rest, Some(w), false) == and_then_words(
            seq![w],
            words_from(rest, None, false),
        )
}

/// A space parts words.
pub proof fn lemma_space_parts()
    ensures
        parts_words(seq![' ']),
{
    let sep = seq![' '];
    assert forall|rest: Seq<char>, w: Seq<char>| #[trigger]
        words_from(sep + rest, Some(w), false) == and_then_words(
            seq![w],
            words_from(rest, None, false),
        ) by {
        assert((sep + rest).skip(1) =~= rest);
    }
}

/// So does the end of a line behind a backslash, with spaces around it.
pub proof fn lemma_line_parts()
    ensures
        parts_words(" \\\n    "@),
{
    reveal_strlit(" \\\n    ");
    let sep = " \\\n    "@;
    assert forall|rest: Seq<char>, w: Seq<char>| #[trigger]
        words_from(sep + rest, Some(w), false) == and_then_words(
            seq![w],
            words_from(rest, None, false),
        ) by {
        let a = (sep + rest).skip(1);
        let b = a.skip(2);
        let c = b.skip(1);
        let d = c.skip(1);
        let e = d.skip(1);
        assert(a[0] == '\\' && a[1] == '\n');
        assert(b[0] == ' ' && c[0] == ' ' && d[0] == ' ' && e[0] == ' ');
        assert(e.skip(1) =~= rest);
        let r = words_from(rest, None, false);
        lemma_and_nothing(r);
        assert(words_from(e, None, false) == r);
        assert(words_from(d, None, false) == r);
        assert(words_from(c, None, false) == r);
        assert(words_from(b, None, false) == r);
        assert(words_from(a, None, false) == r);
    }
}

/// Two pieces with nothing but a parting between them stand for the words of
/// both.
pub proof fn lemma_two_pieces(
    p: Seq<char>,
    sep: Seq<char>,
    q: Seq<char>,
    a: Seq<Seq<char>>,
    b: Seq<Seq<char>>,
)
    requires
        stands_for(p, a),
        parts_words(sep),
        stands_for(q, b),
    ensures
        stands_for(p + sep + q, a + b),
{
    let ws = a + b;
    let whole = p + sep + q;
    assert forall|rest: Seq<char>|
        rest.len() == 0 || rest[0] == ' ' implies #[trigger] words_from(whole + rest, None, false)
        == and_then_words(ws.drop_last(), words_from(rest, Some(ws.last()), false)) by {
        let last = words_from(rest, Some(b.last()), false);
        let tail = sep + (q + rest);
        assert(whole + rest =~= p + tail);
        assert(tail[0] == ' ');
        assert(words_from(p + tail, None, false) == and_then_words(
            a.drop_last(),
            words_from(tail, Some(a.last()), false),
        ));
        assert(words_from(sep + (q + rest), Some(a.last()), false) == and_then_words(
            seq![a.last()],
            words_from(q + rest, None, false),
        ));
        lemma_and_and(a.drop_last(), seq![a.last()], words_from(q + rest, None, false));
        assert(a.drop_last() + seq![a.last()] =~= a);
        assert(words_from(q + rest, None, false) == and_then_words(b.drop_last(), last));
        lemma_and_and(a, b.drop_last(), last);
        assert(ws.drop_last() =~= a + b.drop_last());
        assert(ws.last() == b.last());
    }
}

/// A row of pieces, and one more.
pub proof fn lemma_one_more_piece(
    ps: Seq<Seq<char>>,
    sep: Seq<char>,
    q: Seq<char>,
    a: Seq<Seq<char>>,
    b: Seq<Seq<char>>,
)
    requires
        ps.len() > 0,
        stands_for(join(ps, sep), a),
        parts_words(sep),
        stands_for(q, b),
    ensures
        stands_for(join(ps.push(q), sep), a + b),
{
    assert(ps.push(q).drop_last() =~= ps);
    assert(ps.push(q).last() == q);
    lemma_two_pieces(join(ps, sep), sep, q, a, b);
}

/// A whole command is read as the words that it stands for.
pub proof fn lemma_whole_command(p: Seq<char>, a: Seq<Seq<char>>)
    requires
        stands_for(p, a),
    ensures
        shell_words(p) == Some(a),
{
    let none = Seq::<char>::empty();
    assert(p + none =~= p);
    assert(words_from(p + none, None, false) == and_then_words(
        a.drop_last(),
        words_from(none, Some(a.last()), false),
    ));
    assert(a.drop_last() + seq![a.last()] =~= a);
}

/// Whether a character is a letter, a digit or one of the marks that mean nothing to a
/// shell wherever they stand.
pub open spec fn stands_bare(c: char) -> bool {
    'a' <= c <= 'z' || 'A' <= c <= 'Z' || '0' <= c <= '9' || "-_.:/@,="@.contains(c)
}

/// A word is written as it is where every character of it stands bare, and in quotes
/// where one does not or where there is nothing to write.
pub proof fn a_word_is_quoted_where_it_has_to_be(s: Seq<char>, i: int)
    ensures
        s.len() > 0 && (forall|k: int| 0 <= k < s.len() ==> stands_bare(#[trigger] s[k]))
            ==> shell_word(s) == s,
        0 <= i < s.len() && !stands_bare(s[i]) ==> shell_word(s)[0] == '\'' && shell_word(s).last()
            == '\'',
        s.len() == 0 ==> shell_word(s) == "''"@,
{
    reveal_strlit("-_.:/@,=");
    reveal_strlit("''");
    reveal_strlit("'");
    let marks = "-_.:/@,="@;
    assert(marks[0] == '-' && marks[1] == '_' && marks[2] == '.' && marks[3] == ':');
    assert(marks[4] == '/' && marks[5] == '@' && marks[6] == ',' && marks[7] == '=');
    assert forall|c: char| #[trigger] harmless(c) == stands_bare(c) by {
        assert(marks.contains(c) <==> c == '-' || c == '_' || c == '.' || c == ':' || c == '/' || c
            == '@' || c == ',' || c == '=') by {
            if marks.contains(c) {
                let k = choose|k: int| 0 <= k < marks.len() && marks[k] == c;
                assert(0 <= k < 8);
            }
            if c == '-' || c == '_' || c == '.' || c == ':' {
                assert(marks[0] == c || marks[1] == c || marks[2] == c || marks[3] == c);
            }
            if c == '/' || c == '@' || c == ',' || c == '=' {
                assert(marks[4] == c || marks[5] == c || marks[6] == c || marks[7] == c);
            }
        }
        assert(harmless(c) == stands_bare(c));
    }
    if 0 <= i < s.len() && !stands_bare(s[i]) {
        assert(!harmless(s[i]));
        assert(!bare(s));
    }
    if s.len() > 0 && (forall|k: int| 0 <= k < s.len() ==> stands_bare(#[trigger] s[k])) {
        assert forall|k: int| 0 <= k < s.len() implies harmless(#[trigger] s[k]) by {
            assert(stands_bare(s[k]));
        }
        assert(bare(s));
    }
    if s.len() == 0 {
        assert(shell_word(s) =~= "''"@);
    }
}

} // verus!
