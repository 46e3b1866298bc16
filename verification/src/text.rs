//! Reading plain text: lines, words, fields and substrings.
//!
//! Every function here works on the characters of a string. The spec
//! functions say what a piece of text is as a sequence of characters, and the
//! executable functions are proved to return exactly that.

use vstd::prelude::*;
use vstd::string::*;

verus! {

/// `String::push` adds one character at the end of the text.
pub assume_specification[ String::push ](s: &mut String, c: char)
    ensures
        final(s)@ == old(s)@.push(c),
;

/// `char::from_u32` gives the character of a number, and nothing where the number
/// is that of none: where it is over 0x10ffff, or a surrogate's.
pub assume_specification[ char::from_u32 ](i: u32) -> (r: Option<char>)
    ensures
        r == (if vstd::utf8::is_scalar(i) {
            Some(i as char)
        } else {
            None
        }),
;

/// A text as the `{:?}` format of `str` shows it: in quotes, with what cannot be
/// shown as it is escaped.
pub uninterp spec fn debug_str(s: Seq<char>) -> Seq<char>;

/// `format!("{:?}", s)` of std, whose result depends on the text alone. Which
/// characters it escapes is not stated.
#[verifier::external_body]
pub(crate) fn debugged(s: &str) -> (r: String)
    ensures
        r@ == debug_str(s@),
{
    format!("{:?}", s)
}

/// The texts of a list of strings.
pub open spec fn texts(v: Seq<String>) -> Seq<Seq<char>> {
    Seq::new(v.len(), |i: int| v[i]@)
}

pub broadcast proof fn lemma_texts_push(v: Seq<String>, s: String)
    ensures
        #[trigger] texts(v.push(s)) == texts(v).push(s@),
{
    assert(texts(v.push(s)) =~= texts(v).push(s@));
}

/// The text an optional string holds.
pub open spec fn opt_text(o: Option<&str>) -> Option<Seq<char>> {
    match o {
        Some(s) => Some(s@),
        None => None,
    }
}

/// The text an optional string of its own holds.
pub open spec fn opt_string(o: Option<String>) -> Option<Seq<char>> {
    match o {
        Some(s) => Some(s@),
        None => None,
    }
}

/// A copy of an optional string.
pub fn copy_opt(o: &Option<String>) -> (r: Option<String>)
    ensures
        opt_string(r) == opt_string(*o),
{
    match o {
        Some(s) => Some(copy(s.as_str())),
        None => None,
    }
}

/// An optional string, borrowed.
pub fn borrow_opt(o: &Option<String>) -> (r: Option<&str>)
    ensures
        opt_text(r) == opt_string(*o),
{
    match o {
        Some(s) => Some(s.as_str()),
        None => None,
    }
}

// ---------------------------------------------------------------------------
// Characters
// ---------------------------------------------------------------------------

/// The characters Unicode calls white space.
pub open spec fn is_whitespace(c: char) -> bool {
    let n = c as u32;
    ||| n == 0x20
    ||| 0x09 <= n <= 0x0d
    ||| n == 0x85
    ||| n == 0xa0
    ||| n == 0x1680
    ||| 0x2000 <= n <= 0x200a
    ||| n == 0x2028
    ||| n == 0x2029
    ||| n == 0x202f
    ||| n == 0x205f
    ||| n == 0x3000
}

pub fn whitespace(c: char) -> (r: bool)
    ensures
        r == is_whitespace(c),
{
    let n: u32 = c as u32;
    n == 0x20 || (0x09 <= n && n <= 0x0d) || n == 0x85 || n == 0xa0 || n == 0x1680 || (0x2000 <= n
        && n <= 0x200a) || n == 0x2028 || n == 0x2029 || n == 0x202f || n == 0x205f || n == 0x3000
}

/// The characters of a string, for indexing.
pub fn chars_of(s: &str) -> (r: Vec<char>)
    ensures
        r@ == s@,
{
    let mut v: Vec<char> = Vec::new();
    for c in it: s.chars()
        invariant
            v@ == s@.take(it.index() as int),
            it.seq() == s@,
    {
        v.push(c);
    }
    v
}

/// The string made of the characters from `from` up to `to`.
pub fn piece(v: &Vec<char>, from: usize, to: usize) -> (r: String)
    requires
        from <= to <= v@.len(),
    ensures
        r@ == v@.subrange(from as int, to as int),
{
    let mut s: String = String::new();
    let mut i: usize = from;
    while i < to
        invariant
            from <= i <= to <= v@.len(),
            s@ == v@.subrange(from as int, i as int),
        decreases to - i,
    {
        s.push(v[i]);
        assert(v@.subrange(from as int, i + 1) =~= v@.subrange(from as int, i as int).push(
            v@[i as int],
        ));
        i += 1;
    }
    s
}

/// A copy of a string as its own value.
pub fn copy(s: &str) -> (r: String)
    ensures
        r@ == s@,
{
    String::from_str(s)
}

/// Whether two strings are the same text.
pub fn same(a: &str, b: &str) -> (r: bool)
    ensures
        r == (a@ == b@),
{
    String::from_str(a) == String::from_str(b)
}

/// Whether a list of strings holds a text.
pub fn lists(v: &Vec<String>, s: &str) -> (r: bool)
    ensures
        r == texts(v@).contains(s@),
{
    let mut i: usize = 0;
    while i < v.len()
        invariant
            i <= v@.len(),
            forall|j: int| 0 <= j < i ==> texts(v@)[j] != s@,
        decreases v@.len() - i,
    {
        if same(v[i].as_str(), s) {
            assert(texts(v@)[i as int] == s@);
            return true;
        }
        i += 1;
    }
    false
}

/// A copy of a list of strings.
pub fn copies(v: &Vec<String>) -> (r: Vec<String>)
    ensures
        texts(r@) == texts(v@),
{
    let mut out: Vec<String> = Vec::new();
    let mut i: usize = 0;
    while i < v.len()
        invariant
            i <= v@.len(),
            texts(out@) =~= texts(v@).take(i as int),
        decreases v@.len() - i,
    {
        let ghost before = out@;
        out.push(copy(v[i].as_str()));
        proof {
            lemma_texts_push(before, out@.last());
        }
        i += 1;
    }
    out
}

// ---------------------------------------------------------------------------
// Trimming
// ---------------------------------------------------------------------------

/// Without the white space in front.
pub open spec fn trim_start(s: Seq<char>) -> Seq<char>
    decreases s.len(),
{
    if s.len() > 0 && is_whitespace(s[0]) {
        trim_start(s.skip(1))
    } else {
        s
    }
}

/// Without the white space behind.
pub open spec fn trim_end(s: Seq<char>) -> Seq<char>
    decreases s.len(),
{
    if s.len() > 0 && is_whitespace(s.last()) {
        trim_end(s.drop_last())
    } else {
        s
    }
}

/// Without the white space at either end.
pub open spec fn trim(s: Seq<char>) -> Seq<char> {
    trim_end(trim_start(s))
}

/// Without the `c`s in front.
pub open spec fn trim_start_char(s: Seq<char>, c: char) -> Seq<char>
    decreases s.len(),
{
    if s.len() > 0 && s[0] == c {
        trim_start_char(s.skip(1), c)
    } else {
        s
    }
}

/// Without the `c`s behind.
pub open spec fn trim_end_char(s: Seq<char>, c: char) -> Seq<char>
    decreases s.len(),
{
    if s.len() > 0 && s.last() == c {
        trim_end_char(s.drop_last(), c)
    } else {
        s
    }
}

/// Without the `c`s at either end.
pub open spec fn trim_char(s: Seq<char>, c: char) -> Seq<char> {
    trim_end_char(trim_start_char(s, c), c)
}

pub proof fn lemma_trim_start_len(s: Seq<char>)
    ensures
        trim_start(s).len() <= s.len(),
        trim_start(s).len() > 0 ==> !is_whitespace(trim_start(s)[0]),
    decreases s.len(),
{
    if s.len() > 0 && is_whitespace(s[0]) {
        lemma_trim_start_len(s.skip(1));
    }
}

/// Trimming takes characters away and never adds or moves one.
pub proof fn lemma_trim_end_is_prefix(s: Seq<char>)
    ensures
        trim_end(s).len() <= s.len(),
        trim_end(s) == s.take(trim_end(s).len() as int),
        trim_end(s).len() > 0 ==> !is_whitespace(trim_end(s).last()),
    decreases s.len(),
{
    if s.len() > 0 && is_whitespace(s.last()) {
        let t = s.drop_last();
        lemma_trim_end_is_prefix(t);
        assert(t.take(trim_end(t).len() as int) =~= s.take(trim_end(t).len() as int));
    } else {
        assert(s.take(s.len() as int) =~= s);
    }
}

/// A text that neither begins nor ends with white space is left as it is.
pub proof fn lemma_trimmed_stays(s: Seq<char>)
    requires
        s.len() == 0 || (!is_whitespace(s[0]) && !is_whitespace(s.last())),
    ensures
        trim(s) == s,
{
}

pub fn trimmed_end(s: &str) -> (r: String)
    ensures
        r@ == trim_end(s@),
{
    let v: Vec<char> = chars_of(s);
    let mut n: usize = v.len();
    assert(v@.take(n as int) =~= v@);
    while n > 0 && whitespace(v[n - 1])
        invariant
            n <= v@.len(),
            v@ == s@,
            trim_end(s@) == trim_end(v@.take(n as int)),
        decreases n,
    {
        assert(v@.take(n as int).drop_last() =~= v@.take(n - 1));
        n -= 1;
    }
    assert(v@.take(n as int) =~= v@.subrange(0, n as int));
    piece(&v, 0, n)
}

pub fn trimmed(s: &str) -> (r: String)
    ensures
        r@ == trim(s@),
{
    let v: Vec<char> = chars_of(s);
    let mut i: usize = 0;
    assert(v@.skip(0) =~= v@);
    while i < v.len() && whitespace(v[i])
        invariant
            i <= v@.len(),
            v@ == s@,
            trim_start(s@) == trim_start(v@.skip(i as int)),
        decreases v@.len() - i,
    {
        assert(v@.skip(i as int).skip(1) =~= v@.skip(i + 1));
        i += 1;
    }
    assert(v@.skip(i as int) =~= v@.subrange(i as int, v@.len() as int));
    trimmed_end(piece(&v, i, v.len()).as_str())
}

pub fn trimmed_char(s: &str, c: char) -> (r: String)
    ensures
        r@ == trim_char(s@, c),
{
    let v: Vec<char> = chars_of(s);
    let mut i: usize = 0;
    assert(v@.skip(0) =~= v@);
    while i < v.len() && v[i] == c
        invariant
            i <= v@.len(),
            v@ == s@,
            trim_start_char(s@, c) == trim_start_char(v@.skip(i as int), c),
        decreases v@.len() - i,
    {
        assert(v@.skip(i as int).skip(1) =~= v@.skip(i + 1));
        i += 1;
    }
    let ghost front = v@.skip(i as int);
    assert(trim_start_char(s@, c) == front);
    let mut n: usize = v.len();
    assert(v@.subrange(i as int, n as int) =~= front);
    while n > i && v[n - 1] == c
        invariant
            i <= n <= v@.len(),
            trim_end_char(front, c) == trim_end_char(v@.subrange(i as int, n as int), c),
        decreases n,
    {
        assert(v@.subrange(i as int, n as int).drop_last() =~= v@.subrange(i as int, n - 1));
        n -= 1;
    }
    piece(&v, i, n)
}

// ---------------------------------------------------------------------------
// Prefixes, suffixes and substrings
// ---------------------------------------------------------------------------

/// Whether `p` stands in `s` at position `i`.
pub open spec fn has_at(s: Seq<char>, p: Seq<char>, i: int) -> bool {
    &&& 0 <= i
    &&& i + p.len() <= s.len()
    &&& s.subrange(i, i + p.len()) == p
}

/// Whether `p` stands somewhere in `s`.
pub open spec fn contains(s: Seq<char>, p: Seq<char>) -> bool {
    exists|i: int| has_at(s, p, i)
}

/// The first position at or after `from` where `p` stands in `s`.
pub open spec fn find_from(s: Seq<char>, p: Seq<char>, from: int) -> Option<int>
    decreases s.len() - from + 1,
{
    if from < 0 || from + p.len() > s.len() {
        None
    } else if has_at(s, p, from) {
        Some(from)
    } else {
        find_from(s, p, from + 1)
    }
}

/// The first position where `p` stands in `s`.
pub open spec fn find(s: Seq<char>, p: Seq<char>) -> Option<int> {
    find_from(s, p, 0)
}

pub open spec fn starts_with(s: Seq<char>, p: Seq<char>) -> bool {
    has_at(s, p, 0)
}

pub open spec fn ends_with(s: Seq<char>, p: Seq<char>) -> bool {
    has_at(s, p, s.len() - p.len())
}

/// What follows the prefix `p`.
pub open spec fn strip_prefix(s: Seq<char>, p: Seq<char>) -> Option<Seq<char>> {
    if starts_with(s, p) {
        Some(s.skip(p.len() as int))
    } else {
        None
    }
}

/// What stands before the suffix `p`.
pub open spec fn strip_suffix(s: Seq<char>, p: Seq<char>) -> Option<Seq<char>> {
    if ends_with(s, p) {
        Some(s.take(s.len() - p.len()))
    } else {
        None
    }
}

/// Without every `p` in front.
pub open spec fn trim_start_str(s: Seq<char>, p: Seq<char>) -> Seq<char>
    decreases s.len(),
{
    if p.len() > 0 && starts_with(s, p) {
        trim_start_str(s.skip(p.len() as int), p)
    } else {
        s
    }
}

/// Without every `p` behind.
pub open spec fn trim_end_str(s: Seq<char>, p: Seq<char>) -> Seq<char>
    decreases s.len(),
{
    if p.len() > 0 && ends_with(s, p) {
        trim_end_str(s.take(s.len() - p.len()), p)
    } else {
        s
    }
}

/// The position found is the first one, and nothing is found only where the
/// text is not there.
pub proof fn lemma_find_from(s: Seq<char>, p: Seq<char>, from: int)
    requires
        0 <= from,
    ensures
        match find_from(s, p, from) {
            Some(i) => from <= i && has_at(s, p, i) && (forall|j: int|
                from <= j < i ==> !has_at(s, p, j)),
            None => forall|j: int| from <= j ==> !has_at(s, p, j),
        },
    decreases s.len() - from + 1,
{
    if from + p.len() <= s.len() && !has_at(s, p, from) {
        lemma_find_from(s, p, from + 1);
    }
}

/// A text is found exactly where it is contained.
pub proof fn lemma_find_is_contains(s: Seq<char>, p: Seq<char>)
    ensures
        find(s, p) is Some <==> contains(s, p),
{
    lemma_find_from(s, p, 0);
    if contains(s, p) {
        let i = choose|i: int| has_at(s, p, i);
        assert(has_at(s, p, i));
    }
}

fn stands_at(v: &Vec<char>, p: &Vec<char>, i: usize) -> (r: bool)
    ensures
        r == has_at(v@, p@, i as int),
{
    if i > v.len() || p.len() > v.len() - i {
        return false;
    }
    let mut k: usize = 0;
    let n: usize = v.len();
    while k < p.len()
        invariant
            k <= p@.len(),
            i + p@.len() <= v@.len(),
            n == v@.len(),
            forall|j: int| 0 <= j < k ==> v@[i + j] == p@[j],
        decreases p@.len() - k,
    {
        if v[i + k] != p[k] {
            assert(v@.subrange(i as int, i + p@.len())[k as int] != p@[k as int]);
            return false;
        }
        k += 1;
    }
    assert(v@.subrange(i as int, i + p@.len()) =~= p@);
    true
}

pub fn begins(s: &str, p: &str) -> (r: bool)
    ensures
        r == starts_with(s@, p@),
{
    stands_at(&chars_of(s), &chars_of(p), 0)
}

pub fn ends(s: &str, p: &str) -> (r: bool)
    ensures
        r == ends_with(s@, p@),
{
    let v: Vec<char> = chars_of(s);
    let q: Vec<char> = chars_of(p);
    if q.len() > v.len() {
        return false;
    }
    stands_at(&v, &q, v.len() - q.len())
}

/// The first position of `p` in `s`, counted in characters.
pub fn position(s: &str, p: &str) -> (r: Option<usize>)
    ensures
        match r {
            Some(i) => find(s@, p@) == Some(i as int),
            None => find(s@, p@) is None,
        },
{
    let v: Vec<char> = chars_of(s);
    let q: Vec<char> = chars_of(p);
    if q.len() > v.len() {
        return None;
    }
    let last: usize = v.len() - q.len();
    let mut i: usize = 0;
    while i <= last
        invariant
            v@ == s@,
            q@ == p@,
            last == v@.len() - q@.len(),
            i <= last + 1,
            v@.len() <= usize::MAX,
            find(s@, p@) == find_from(s@, p@, i as int),
        decreases last + 1 - i,
    {
        if stands_at(&v, &q, i) {
            return Some(i);
        }
        if i == last {
            assert(find_from(s@, p@, i + 1) is None);
            return None;
        }
        i += 1;
    }
    None
}

/// Whether `p` stands somewhere in `s`.
pub fn holds(s: &str, p: &str) -> (r: bool)
    ensures
        r == contains(s@, p@),
{
    proof {
        lemma_find_is_contains(s@, p@);
    }
    position(s, p).is_some()
}

pub fn after_prefix(s: &str, p: &str) -> (r: Option<String>)
    ensures
        match r {
            Some(t) => strip_prefix(s@, p@) == Some(t@),
            None => strip_prefix(s@, p@) is None,
        },
{
    let v: Vec<char> = chars_of(s);
    let q: Vec<char> = chars_of(p);
    if stands_at(&v, &q, 0) {
        assert(v@.skip(q@.len() as int) =~= v@.subrange(q@.len() as int, v@.len() as int));
        Some(piece(&v, q.len(), v.len()))
    } else {
        None
    }
}

pub fn before_suffix(s: &str, p: &str) -> (r: Option<String>)
    ensures
        match r {
            Some(t) => strip_suffix(s@, p@) == Some(t@),
            None => strip_suffix(s@, p@) is None,
        },
{
    let v: Vec<char> = chars_of(s);
    let q: Vec<char> = chars_of(p);
    if q.len() > v.len() || !stands_at(&v, &q, v.len() - q.len()) {
        return None;
    }
    assert(v@.take(v@.len() - q@.len()) =~= v@.subrange(0, v@.len() - q@.len()));
    Some(piece(&v, 0, v.len() - q.len()))
}

pub fn trimmed_start_str(s: &str, p: &str) -> (r: String)
    ensures
        r@ == trim_start_str(s@, p@),
{
    let v: Vec<char> = chars_of(s);
    let q: Vec<char> = chars_of(p);
    let mut i: usize = 0;
    let n: usize = v.len();
    assert(v@.skip(0) =~= v@);
    while q.len() > 0 && stands_at(&v, &q, i)
        invariant
            i <= n,
            n == v@.len(),
            v@ == s@,
            q@ == p@,
            trim_start_str(s@, p@) == trim_start_str(v@.skip(i as int), p@),
        decreases v@.len() - i,
    {
        assert(v@.skip(i as int).subrange(0, q@.len() as int) =~= v@.subrange(
            i as int,
            i + q@.len(),
        ));
        assert(i + q@.len() <= n);
        assert(v@.skip(i as int).skip(q@.len() as int) =~= v@.skip(i + q@.len()));
        i += q.len();
    }
    proof {
        let t = v@.skip(i as int);
        if q@.len() > 0 && starts_with(t, q@) {
            assert(v@.subrange(i as int, i + q@.len()) =~= t.subrange(0, q@.len() as int));
        }
        assert(t =~= v@.subrange(i as int, v@.len() as int));
    }
    piece(&v, i, v.len())
}

pub fn trimmed_end_str(s: &str, p: &str) -> (r: String)
    ensures
        r@ == trim_end_str(s@, p@),
{
    let v: Vec<char> = chars_of(s);
    let q: Vec<char> = chars_of(p);
    let mut n: usize = v.len();
    assert(v@.take(n as int) =~= v@);
    while q.len() > 0 && q.len() <= n && stands_at(&v, &q, n - q.len())
        invariant
            n <= v@.len(),
            v@ == s@,
            q@ == p@,
            trim_end_str(s@, p@) == trim_end_str(v@.take(n as int), p@),
        decreases n,
    {
        let ghost t = v@.take(n as int);
        assert(t.subrange(t.len() - q@.len(), t.len() as int) =~= v@.subrange(
            n - q@.len(),
            n as int,
        ));
        assert(t.take(t.len() - q@.len()) =~= v@.take(n - q@.len()));
        n -= q.len();
    }
    proof {
        let t = v@.take(n as int);
        if q@.len() > 0 && ends_with(t, q@) {
            assert(v@.subrange(n - q@.len(), n as int) =~= t.subrange(
                t.len() - q@.len(),
                t.len() as int,
            ));
        }
        assert(t =~= v@.subrange(0, n as int));
    }
    piece(&v, 0, n)
}

/// What stands before the first `p`: all of the text where there is none.
pub open spec fn before_str(s: Seq<char>, p: Seq<char>) -> Seq<char> {
    match find(s, p) {
        Some(i) => s.take(i),
        None => s,
    }
}

/// What stands after the first `p`.
pub open spec fn after_str(s: Seq<char>, p: Seq<char>) -> Option<Seq<char>> {
    match find(s, p) {
        Some(i) => Some(s.skip(i + p.len())),
        None => None,
    }
}

pub fn head_str(s: &str, p: &str) -> (r: String)
    ensures
        r@ == before_str(s@, p@),
{
    match position(s, p) {
        Some(i) => {
            proof {
                lemma_find_from(s@, p@, 0);
            }
            let v: Vec<char> = chars_of(s);
            assert(v@.take(i as int) =~= v@.subrange(0, i as int));
            piece(&v, 0, i)
        },
        None => copy(s),
    }
}

pub fn rest_str(s: &str, p: &str) -> (r: Option<String>)
    ensures
        match r {
            Some(t) => after_str(s@, p@) == Some(t@),
            None => after_str(s@, p@) is None,
        },
{
    match position(s, p) {
        Some(i) => {
            proof {
                lemma_find_from(s@, p@, 0);
            }
            let v: Vec<char> = chars_of(s);
            let q: Vec<char> = chars_of(p);
            let n: usize = v.len();
            assert(i + q@.len() <= n);
            assert(v@.skip(i + q@.len()) =~= v@.subrange(i + q@.len(), n as int));
            Some(piece(&v, i + q.len(), n))
        },
        None => None,
    }
}

// ---------------------------------------------------------------------------
// Fields
// ---------------------------------------------------------------------------

/// The position of the first `c`, or the length where there is none.
pub open spec fn find_char(s: Seq<char>, c: char) -> int
    decreases s.len(),
{
    if s.len() == 0 || s[0] == c {
        0
    } else {
        1 + find_char(s.skip(1), c)
    }
}

/// The position of the last `c`, or -1 where there is none.
pub open spec fn rfind_char(s: Seq<char>, c: char) -> int
    decreases s.len(),
{
    if s.len() == 0 {
        -1
    } else if s.last() == c {
        s.len() - 1
    } else {
        rfind_char(s.drop_last(), c)
    }
}

/// What stands before and after the first `c`.
pub open spec fn split_once(s: Seq<char>, c: char) -> Option<(Seq<char>, Seq<char>)> {
    let i = find_char(s, c);
    if i < s.len() {
        Some((s.take(i), s.skip(i + 1)))
    } else {
        None
    }
}

/// What stands before and after the last `c`.
pub open spec fn rsplit_once(s: Seq<char>, c: char) -> Option<(Seq<char>, Seq<char>)> {
    let i = rfind_char(s, c);
    if i >= 0 {
        Some((s.take(i), s.skip(i + 1)))
    } else {
        None
    }
}

/// The fields between the `c`s. There is one more of them than there are `c`s.
pub open spec fn split(s: Seq<char>, c: char) -> Seq<Seq<char>>
    decreases s.len(),
{
    let i = find_char(s, c);
    if 0 <= i < s.len() {
        seq![s.take(i)] + split(s.skip(i + 1), c)
    } else {
        seq![s]
    }
}

/// What follows the last `c`: all of the text where there is none.
pub open spec fn last_field(s: Seq<char>, c: char) -> Seq<char> {
    s.skip(rfind_char(s, c) + 1)
}

/// Without one carriage return behind.
pub open spec fn strip_cr(s: Seq<char>) -> Seq<char> {
    if s.len() > 0 && s.last() == '\r' {
        s.drop_last()
    } else {
        s
    }
}

/// The lines of a text. A line ends at a line feed, or at a carriage return
/// and a line feed; the last one need not end at all.
pub open spec fn lines(s: Seq<char>) -> Seq<Seq<char>>
    decreases s.len(),
{
    if s.len() == 0 {
        seq![]
    } else {
        let i = find_char(s, '\n');
        if 0 <= i < s.len() {
            seq![strip_cr(s.take(i))] + lines(s.skip(i + 1))
        } else {
            seq![s]
        }
    }
}

/// How many characters stand before the first white space.
pub open spec fn word_len(s: Seq<char>) -> int
    decreases s.len(),
{
    if s.len() == 0 || is_whitespace(s[0]) {
        0
    } else {
        1 + word_len(s.skip(1))
    }
}

/// The words of a text: what stands between its white space.
pub open spec fn words(s: Seq<char>) -> Seq<Seq<char>>
    decreases s.len(),
{
    let t = trim_start(s);
    if t.len() == 0 {
        seq![]
    } else {
        proof {
            lemma_trim_start_len(s);
            lemma_word_len(t);
        }
        seq![t.take(word_len(t))] + words(t.skip(word_len(t)))
    }
}

pub proof fn lemma_word_len(s: Seq<char>)
    ensures
        0 <= word_len(s) <= s.len(),
        s.len() > 0 && !is_whitespace(s[0]) ==> word_len(s) > 0,
        forall|j: int| 0 <= j < word_len(s) ==> !is_whitespace(#[trigger] s[j]),
        word_len(s) < s.len() ==> is_whitespace(s[word_len(s)]),
    decreases s.len(),
{
    if s.len() > 0 && !is_whitespace(s[0]) {
        let t = s.skip(1);
        lemma_word_len(t);
        assert forall|j: int| 0 <= j < word_len(s) implies !is_whitespace(#[trigger] s[j]) by {
            if j > 0 {
                assert(s[j] == t[j - 1]);
            }
        }
    }
}

/// A word holds no white space.
pub proof fn lemma_words_hold_no_space(s: Seq<char>, i: int, j: int)
    requires
        0 <= i < words(s).len(),
        0 <= j < words(s)[i].len(),
    ensures
        !is_whitespace(words(s)[i][j]),
    decreases i,
{
    let t = trim_start(s);
    lemma_trim_start_len(s);
    lemma_word_len(t);
    if i > 0 {
        lemma_words_hold_no_space(t.skip(word_len(t)), i - 1, j);
    }
}

/// The position found is the first `c`, or the end.
pub proof fn lemma_find_char(s: Seq<char>, c: char)
    ensures
        0 <= find_char(s, c) <= s.len(),
        forall|j: int| 0 <= j < find_char(s, c) ==> #[trigger] s[j] != c,
        find_char(s, c) < s.len() ==> s[find_char(s, c)] == c,
    decreases s.len(),
{
    if s.len() > 0 && s[0] != c {
        let t = s.skip(1);
        lemma_find_char(t, c);
        assert forall|j: int| 0 <= j < find_char(s, c) implies #[trigger] s[j] != c by {
            if j > 0 {
                assert(s[j] == t[j - 1]);
            }
        }
    }
}

/// Only one position can be the first `c`.
pub proof fn lemma_find_char_is(s: Seq<char>, c: char, i: int)
    requires
        0 <= i <= s.len(),
        forall|j: int| 0 <= j < i ==> #[trigger] s[j] != c,
        i < s.len() ==> s[i] == c,
    ensures
        find_char(s, c) == i,
{
    lemma_find_char(s, c);
    let k = find_char(s, c);
    if k < i {
        assert(s[k] != c);
    } else if i < k {
        assert(s[i] != c);
    }
}

pub proof fn lemma_rfind_char(s: Seq<char>, c: char)
    ensures
        -1 <= rfind_char(s, c) < s.len(),
        forall|j: int| rfind_char(s, c) < j < s.len() ==> #[trigger] s[j] != c,
        rfind_char(s, c) >= 0 ==> s[rfind_char(s, c)] == c,
    decreases s.len(),
{
    if s.len() > 0 && s.last() != c {
        let t = s.drop_last();
        lemma_rfind_char(t, c);
        assert forall|j: int| rfind_char(s, c) < j < s.len() implies #[trigger] s[j] != c by {
            if j < s.len() - 1 {
                assert(s[j] == t[j]);
            }
        }
    }
}

/// The position of the first `c` at or after `from`.
fn next_char(v: &Vec<char>, c: char, from: usize) -> (r: usize)
    requires
        from <= v@.len(),
    ensures
        from <= r <= v@.len(),
        r - from == find_char(v@.skip(from as int), c),
{
    let mut i: usize = from;
    while i < v.len() && v[i] != c
        invariant
            from <= i <= v@.len(),
            find_char(v@.skip(from as int), c) == (i - from) + find_char(v@.skip(i as int), c),
        decreases v@.len() - i,
    {
        assert(v@.skip(i as int).skip(1) =~= v@.skip(i + 1));
        i += 1;
    }
    i
}

/// The position of the last `c`, as one more than its index; 0 for none.
fn last_char(v: &Vec<char>, c: char) -> (r: usize)
    ensures
        r <= v@.len(),
        r == rfind_char(v@, c) + 1,
{
    let mut n: usize = v.len();
    assert(v@.take(n as int) =~= v@);
    while n > 0 && v[n - 1] != c
        invariant
            n <= v@.len(),
            rfind_char(v@, c) == rfind_char(v@.take(n as int), c),
        decreases n,
    {
        assert(v@.take(n as int).drop_last() =~= v@.take(n - 1));
        n -= 1;
    }
    n
}

pub fn cut(s: &str, c: char) -> (r: Option<(String, String)>)
    ensures
        match r {
            Some((a, b)) => split_once(s@, c) == Some((a@, b@)),
            None => split_once(s@, c) is None,
        },
{
    let v: Vec<char> = chars_of(s);
    assert(v@.skip(0) =~= v@);
    let i: usize = next_char(&v, c, 0);
    if i == v.len() {
        return None;
    }
    assert(v@.take(i as int) =~= v@.subrange(0, i as int));
    assert(v@.skip(i + 1) =~= v@.subrange(i + 1, v@.len() as int));
    Some((piece(&v, 0, i), piece(&v, i + 1, v.len())))
}

pub fn cut_last(s: &str, c: char) -> (r: Option<(String, String)>)
    ensures
        match r {
            Some((a, b)) => rsplit_once(s@, c) == Some((a@, b@)),
            None => rsplit_once(s@, c) is None,
        },
{
    let v: Vec<char> = chars_of(s);
    let n: usize = last_char(&v, c);
    if n == 0 {
        return None;
    }
    assert(v@.take(n - 1) =~= v@.subrange(0, n - 1));
    assert(v@.skip(n as int) =~= v@.subrange(n as int, v@.len() as int));
    Some((piece(&v, 0, n - 1), piece(&v, n, v.len())))
}

/// What follows the last `c`.
pub fn tail_field(s: &str, c: char) -> (r: String)
    ensures
        r@ == last_field(s@, c),
{
    let v: Vec<char> = chars_of(s);
    let n: usize = last_char(&v, c);
    assert(v@.skip(n as int) =~= v@.subrange(n as int, v@.len() as int));
    piece(&v, n, v.len())
}

/// What stands before the first `c`: all of the text where there is none.
pub fn head_field(s: &str, c: char) -> (r: String)
    ensures
        r@ == s@.take(find_char(s@, c)),
{
    let v: Vec<char> = chars_of(s);
    assert(v@.skip(0) =~= v@);
    let i: usize = next_char(&v, c, 0);
    assert(v@.take(i as int) =~= v@.subrange(0, i as int));
    piece(&v, 0, i)
}

pub fn fields(s: &str, c: char) -> (r: Vec<String>)
    ensures
        texts(r@) == split(s@, c),
{
    let v: Vec<char> = chars_of(s);
    let mut out: Vec<String> = Vec::new();
    let mut i: usize = 0;
    assert(v@.skip(0) =~= v@);
    loop
        invariant
            i <= v@.len(),
            v@ == s@,
            split(s@, c) =~= texts(out@) + split(v@.skip(i as int), c),
        decreases v@.len() - i + 1,
    {
        let j: usize = next_char(&v, c, i);
        let ghost rest = v@.skip(i as int);
        assert(rest.take(j - i) =~= v@.subrange(i as int, j as int));
        let ghost before = out@;
        out.push(piece(&v, i, j));
        proof {
            lemma_texts_push(before, out@.last());
        }
        if j == v.len() {
            assert(rest.take(j - i) =~= rest);
            return out;
        }
        assert(rest.skip(j - i + 1) =~= v@.skip(j + 1));
        i = j + 1;
    }
}

pub fn lines_of(s: &str) -> (r: Vec<String>)
    ensures
        texts(r@) == lines(s@),
{
    let v: Vec<char> = chars_of(s);
    let mut out: Vec<String> = Vec::new();
    let mut i: usize = 0;
    assert(v@.skip(0) =~= v@);
    while i < v.len()
        invariant
            i <= v@.len(),
            v@ == s@,
            lines(s@) =~= texts(out@) + lines(v@.skip(i as int)),
        decreases v@.len() - i,
    {
        let j: usize = next_char(&v, '\n', i);
        let ghost rest = v@.skip(i as int);
        let ghost before = out@;
        assert(rest.take(j - i) =~= v@.subrange(i as int, j as int));
        if j == v.len() {
            out.push(piece(&v, i, j));
            assert(rest.take(j - i) =~= rest);
            i = j;
            proof {
                lemma_texts_push(before, out@.last());
            }
        } else {
            let end: usize = if j > i && v[j - 1] == '\r' {
                j - 1
            } else {
                j
            };
            assert(strip_cr(rest.take(j - i)) =~= v@.subrange(i as int, end as int));
            out.push(piece(&v, i, end));
            assert(rest.skip(j - i + 1) =~= v@.skip(j + 1));
            i = j + 1;
            proof {
                lemma_texts_push(before, out@.last());
            }
        }
    }
    assert(v@.skip(i as int).len() == 0);
    out
}

pub fn words_of(s: &str) -> (r: Vec<String>)
    ensures
        texts(r@) == words(s@),
{
    let v: Vec<char> = chars_of(s);
    let mut out: Vec<String> = Vec::new();
    let mut i: usize = 0;
    assert(v@.skip(0) =~= v@);
    loop
        invariant
            i <= v@.len(),
            v@ == s@,
            words(s@) =~= texts(out@) + words(v@.skip(i as int)),
        decreases v@.len() - i,
    {
        let ghost rest = v@.skip(i as int);
        let mut j: usize = i;
        while j < v.len() && whitespace(v[j])
            invariant
                i <= j <= v@.len(),
                trim_start(rest) == trim_start(v@.skip(j as int)),
            decreases v@.len() - j,
        {
            assert(v@.skip(j as int).skip(1) =~= v@.skip(j + 1));
            j += 1;
        }
        let ghost t = v@.skip(j as int);
        assert(trim_start(rest) == t);
        if j == v.len() {
            assert(words(rest) =~= seq![]);
            return out;
        }
        let mut k: usize = j;
        while k < v.len() && !whitespace(v[k])
            invariant
                j <= k <= v@.len(),
                word_len(t) == (k - j) + word_len(v@.skip(k as int)),
            decreases v@.len() - k,
        {
            assert(v@.skip(k as int).skip(1) =~= v@.skip(k + 1));
            k += 1;
        }
        proof {
            lemma_word_len(t);
        }
        let ghost before = out@;
        out.push(piece(&v, j, k));
        proof {
            lemma_texts_push(before, out@.last());
            assert(t.take(k - j) =~= v@.subrange(j as int, k as int));
            assert(t.skip(k - j) =~= v@.skip(k as int));
        }
        i = k;
    }
}

/// The first of the lines that begins with `p`.
pub open spec fn first_starting(ls: Seq<Seq<char>>, p: Seq<char>) -> Option<Seq<char>>
    decreases ls.len(),
{
    if ls.len() == 0 {
        None
    } else if starts_with(ls[0], p) {
        Some(ls[0])
    } else {
        first_starting(ls.skip(1), p)
    }
}

/// The first of the lines that holds `p` somewhere.
pub open spec fn first_holding(ls: Seq<Seq<char>>, p: Seq<char>) -> Option<Seq<char>>
    decreases ls.len(),
{
    if ls.len() == 0 {
        None
    } else if contains(ls[0], p) {
        Some(ls[0])
    } else {
        first_holding(ls.skip(1), p)
    }
}

pub fn line_starting(ls: &Vec<String>, p: &str) -> (r: Option<String>)
    ensures
        opt_string(r) == first_starting(texts(ls@), p@),
{
    let mut i: usize = 0;
    let ghost all = texts(ls@);
    assert(all.skip(0) =~= all);
    while i < ls.len()
        invariant
            i <= ls@.len(),
            all == texts(ls@),
            first_starting(all, p@) == first_starting(all.skip(i as int), p@),
        decreases ls@.len() - i,
    {
        if begins(ls[i].as_str(), p) {
            return Some(copy(ls[i].as_str()));
        }
        assert(all.skip(i as int).skip(1) =~= all.skip(i + 1));
        i += 1;
    }
    None
}

pub fn line_holding(ls: &Vec<String>, p: &str) -> (r: Option<String>)
    ensures
        opt_string(r) == first_holding(texts(ls@), p@),
{
    let mut i: usize = 0;
    let ghost all = texts(ls@);
    assert(all.skip(0) =~= all);
    while i < ls.len()
        invariant
            i <= ls@.len(),
            all == texts(ls@),
            first_holding(all, p@) == first_holding(all.skip(i as int), p@),
        decreases ls@.len() - i,
    {
        if holds(ls[i].as_str(), p) {
            return Some(copy(ls[i].as_str()));
        }
        assert(all.skip(i as int).skip(1) =~= all.skip(i + 1));
        i += 1;
    }
    None
}

// ---------------------------------------------------------------------------
// Putting texts together
// ---------------------------------------------------------------------------

/// The texts one after the other, with `sep` between them.
pub open spec fn join(v: Seq<Seq<char>>, sep: Seq<char>) -> Seq<char>
    decreases v.len(),
{
    if v.len() == 0 {
        seq![]
    } else if v.len() == 1 {
        v[0]
    } else {
        join(v.drop_last(), sep) + sep + v.last()
    }
}

/// The texts one after the other, each followed by a line feed.
pub open spec fn unlines(v: Seq<Seq<char>>) -> Seq<char>
    decreases v.len(),
{
    if v.len() == 0 {
        seq![]
    } else {
        (unlines(v.drop_last()) + v.last()).push('\n')
    }
}

/// The text with every `c` written as `with`.
pub open spec fn replace_char(s: Seq<char>, c: char, with: Seq<char>) -> Seq<char>
    decreases s.len(),
{
    if s.len() == 0 {
        seq![]
    } else {
        replace_char(s.drop_last(), c, with) + (if s.last() == c {
            with
        } else {
            seq![s.last()]
        })
    }
}

pub fn joined(v: &Vec<String>, sep: &str) -> (r: String)
    ensures
        r@ == join(texts(v@), sep@),
{
    let mut s: String = String::new();
    let mut i: usize = 0;
    let ghost all = texts(v@);
    while i < v.len()
        invariant
            i <= v@.len(),
            all == texts(v@),
            s@ == join(all.take(i as int), sep@),
        decreases v@.len() - i,
    {
        if i > 0 {
            s.append(sep);
        }
        let ghost before = s@;
        s.append(v[i].as_str());
        assert(all.take(i + 1).drop_last() =~= all.take(i as int));
        assert(seq![] + all[i as int] =~= all[i as int]);
        i += 1;
    }
    assert(all.take(i as int) =~= all);
    s
}

pub fn with_line_feeds(v: &Vec<String>) -> (r: String)
    ensures
        r@ == unlines(texts(v@)),
{
    let mut s: String = String::new();
    let mut i: usize = 0;
    let ghost all = texts(v@);
    while i < v.len()
        invariant
            i <= v@.len(),
            all == texts(v@),
            s@ == unlines(all.take(i as int)),
        decreases v@.len() - i,
    {
        s.append(v[i].as_str());
        s.push('\n');
        assert(all.take(i + 1).drop_last() =~= all.take(i as int));
        i += 1;
    }
    assert(all.take(i as int) =~= all);
    s
}

pub fn replaced_char(s: &str, c: char, with: &str) -> (r: String)
    ensures
        r@ == replace_char(s@, c, with@),
{
    let v: Vec<char> = chars_of(s);
    let mut out: String = String::new();
    let mut i: usize = 0;
    while i < v.len()
        invariant
            i <= v@.len(),
            v@ == s@,
            out@ == replace_char(v@.take(i as int), c, with@),
        decreases v@.len() - i,
    {
        assert(v@.take(i + 1).drop_last() =~= v@.take(i as int));
        let ghost before = out@;
        if v[i] == c {
            out.append(with);
        } else {
            out.push(v[i]);
            assert(before.push(v@[i as int]) =~= before + seq![v@[i as int]]);
        }
        i += 1;
    }
    assert(v@.take(i as int) =~= v@);
    out
}

/// A letter of the Latin alphabet as its small form; any other character as it
/// is.
pub open spec fn small(c: char) -> char {
    if 'A' <= c <= 'Z' {
        (c as u32 + 32) as char
    } else {
        c
    }
}

/// A text with its Latin letters made small.
pub open spec fn lower(s: Seq<char>) -> Seq<char> {
    Seq::new(s.len(), |i: int| small(s[i]))
}

fn small_form(c: char) -> (r: char)
    ensures
        r == small(c),
{
    if 'A' <= c && c <= 'Z' {
        (c as u8 + 32) as char
    } else {
        c
    }
}

/// A text with its Latin letters made small.
pub fn lowered(s: &str) -> (r: String)
    ensures
        r@ == lower(s@),
{
    let v: Vec<char> = chars_of(s);
    let mut out: String = String::new();
    let mut i: usize = 0;
    while i < v.len()
        invariant
            i <= v@.len(),
            v@ == s@,
            out@ =~= lower(s@).take(i as int),
        decreases v@.len() - i,
    {
        out.push(small_form(v[i]));
        i += 1;
    }
    out
}

pub proof fn lemma_unlines_front(v: Seq<Seq<char>>)
    requires
        v.len() > 0,
    ensures
        unlines(v) == v[0].push('\n') + unlines(v.skip(1)),
    decreases v.len(),
{
    if v.len() == 1 {
        assert(v.drop_last() =~= Seq::<Seq<char>>::empty());
        assert(v.skip(1) =~= Seq::<Seq<char>>::empty());
        assert(unlines(v.drop_last()) =~= Seq::<char>::empty());
        assert(unlines(v.skip(1)) =~= Seq::<char>::empty());
        assert(unlines(v) =~= v[0].push('\n') + unlines(v.skip(1)));
    } else {
        lemma_unlines_front(v.drop_last());
        assert(v.drop_last().skip(1) =~= v.skip(1).drop_last());
        assert(v.skip(1).last() == v.last());
        assert(unlines(v) =~= v[0].push('\n') + unlines(v.skip(1)));
    }
}

/// Whether a text can stand as one line.
pub open spec fn is_line(s: Seq<char>) -> bool {
    (forall|i: int| 0 <= i < s.len() ==> #[trigger] s[i] != '\n') && (s.len() > 0 ==> s.last()
        != '\r')
}

/// Lines written one below the other read back as they are.
pub proof fn lines_read_back(v: Seq<Seq<char>>)
    requires
        forall|i: int| 0 <= i < v.len() ==> is_line(#[trigger] v[i]),
    ensures
        lines(unlines(v)) == v,
    decreases v.len(),
{
    let t = unlines(v);
    if v.len() == 0 {
        assert(lines(t) =~= v);
    } else {
        lemma_unlines_front(v);
        let first = v[0];
        let rest = v.skip(1);
        assert forall|i: int| 0 <= i < rest.len() implies is_line(#[trigger] rest[i]) by {
            assert(rest[i] == v[i + 1]);
        }
        lines_read_back(rest);
        assert forall|j: int| 0 <= j < first.len() implies #[trigger] t[j] != '\n' by {
            assert(t[j] == first[j]);
        }
        assert(t[first.len() as int] == '\n');
        lemma_find_char_is(t, '\n', first.len() as int);
        assert(t.take(first.len() as int) =~= first);
        assert(t.skip(first.len() as int + 1) =~= unlines(rest));
        assert(lines(t) =~= v);
    }
}

pub proof fn lemma_split_more(x: Seq<char>, c: char, y: Seq<char>)
    requires
        forall|i: int| 0 <= i < y.len() ==> #[trigger] y[i] != c,
    ensures
        split(x + seq![c] + y, c) == split(x, c).push(y),
    decreases x.len(),
{
    let whole = x + seq![c] + y;
    lemma_find_char(x, c);
    let i = find_char(x, c);
    assert forall|j: int| 0 <= j < i implies #[trigger] whole[j] != c by {
        assert(whole[j] == x[j]);
    }
    assert(whole[i] == c);
    lemma_find_char_is(whole, c, i);
    assert(whole.take(i) =~= x.take(i));
    if i < x.len() {
        let t = x.skip(i + 1);
        lemma_split_more(t, c, y);
        assert(whole.skip(i + 1) =~= t + seq![c] + y);
        assert(split(whole, c) =~= split(x, c).push(y));
    } else {
        assert(whole.skip(i + 1) =~= y);
        lemma_find_char_is(y, c, y.len() as int);
        assert(split(y, c) =~= seq![y]);
        assert(x.take(i) =~= x);
        assert(split(whole, c) == seq![whole.take(i)] + split(whole.skip(i + 1), c));
        assert(split(whole, c) =~= seq![x, y]);
        assert(split(x, c).push(y) =~= seq![x, y]);
    }
}

/// Texts that are joined by a character none of them holds split back into what
/// they were.
pub proof fn fields_read_back(v: Seq<Seq<char>>, c: char)
    requires
        v.len() > 0,
        forall|k: int, i: int|
            0 <= k < v.len() && 0 <= i < v[k].len() ==> #[trigger] v[k][i] != c,
    ensures
        split(join(v, seq![c]), c) == v,
    decreases v.len(),
{
    let t = v.drop_last();
    let y = v.last();
    assert forall|i: int| 0 <= i < y.len() implies #[trigger] y[i] != c by {
        assert(v[v.len() - 1][i] != c);
    }
    if t.len() == 0 {
        lemma_find_char_is(y, c, y.len() as int);
        assert(split(y, c) =~= v);
    } else {
        assert forall|k: int, i: int| 0 <= k < t.len() && 0 <= i < t[k].len() implies #[trigger] t[k][i]
            != c by {
            assert(v[k][i] != c);
        }
        fields_read_back(t, c);
        lemma_split_more(join(t, seq![c]), c, y);
        assert(t.push(y) =~= v);
    }
}

proof fn lemma_join_front(a: Seq<char>, v: Seq<Seq<char>>, sep: Seq<char>)
    requires
        v.len() > 0,
    ensures
        join(seq![a] + v, sep) == a + sep + join(v, sep),
    decreases v.len(),
{
    let w = seq![a] + v;
    let t = v.drop_last();
    assert(w.drop_last() =~= seq![a] + t);
    assert(w.last() == v.last());
    if t.len() == 0 {
        assert(w.drop_last() =~= seq![a]);
        assert(join(seq![a], sep) == a);
        assert(join(v, sep) == v.last());
        assert(join(w, sep) =~= a + sep + join(v, sep));
    } else {
        lemma_join_front(a, t, sep);
        assert(join(v, sep) == join(t, sep) + sep + v.last());
        assert(join(w, sep) == join(seq![a] + t, sep) + sep + v.last());
        assert(join(w, sep) =~= a + sep + join(v, sep));
    }
}

/// The fields of a text with the character between them make up the text, and
/// none of them holds the character.
pub proof fn fields_make_up_their_text(s: Seq<char>, c: char)
    ensures
        join(split(s, c), seq![c]) == s,
        split(s, c).len() > 0,
        forall|k: int, i: int|
            0 <= k < split(s, c).len() && 0 <= i < split(s, c)[k].len() ==> #[trigger] split(
                s,
                c,
            )[k][i] != c,
    decreases s.len(),
{
    lemma_find_char(s, c);
    let i = find_char(s, c);
    let v = split(s, c);
    if i < s.len() {
        let rest = s.skip(i + 1);
        let w = split(rest, c);
        fields_make_up_their_text(rest, c);
        lemma_join_front(s.take(i), w, seq![c]);
        assert(s =~= s.take(i) + seq![c] + rest);
        assert forall|k: int, j: int| 0 <= k < v.len() && 0 <= j < v[k].len() implies #[trigger] v[k][j]
            != c by {
            if k > 0 {
                assert(v[k] == w[k - 1]);
                assert(w[k - 1][j] != c);
            }
        }
    }
}

/// Whether a text is one word: there is something in it, and no white space.
pub open spec fn is_word(s: Seq<char>) -> bool {
    s.len() > 0 && forall|i: int| 0 <= i < s.len() ==> !is_whitespace(#[trigger] s[i])
}

proof fn lemma_word_len_is(s: Seq<char>, n: int)
    requires
        0 <= n <= s.len(),
        forall|i: int| 0 <= i < n ==> !is_whitespace(#[trigger] s[i]),
        n < s.len() ==> is_whitespace(s[n]),
    ensures
        word_len(s) == n,
{
    lemma_word_len(s);
    let k = word_len(s);
    if k < n {
        assert(is_whitespace(s[k]));
    } else if n < k {
        assert(!is_whitespace(s[n]));
    }
}

/// White space parts a text: the words of the whole are those of the one part
/// and then those of the other.
pub proof fn words_of_two_parts(x: Seq<char>, c: char, y: Seq<char>)
    requires
        is_whitespace(c),
    ensures
        words(x + seq![c] + y) == words(x) + words(y),
    decreases x.len(),
{
    let whole = x + seq![c] + y;
    if x.len() == 0 {
        assert(whole.skip(1) =~= y);
        assert(trim_start(whole) == trim_start(y));
        assert(words(x) =~= seq![]);
        assert(words(x) + words(y) =~= words(y));
    } else if is_whitespace(x[0]) {
        words_of_two_parts(x.skip(1), c, y);
        assert(whole.skip(1) =~= x.skip(1) + seq![c] + y);
        assert(trim_start(whole) == trim_start(whole.skip(1)));
        assert(trim_start(x) == trim_start(x.skip(1)));
        assert(words(whole) == words(whole.skip(1)));
        assert(words(x) == words(x.skip(1)));
    } else {
        lemma_word_len(x);
        let n = word_len(x);
        assert forall|i: int| 0 <= i < n implies !is_whitespace(#[trigger] whole[i]) by {
            assert(whole[i] == x[i]);
        }
        assert(whole[n] == if n < x.len() {
            x[n]
        } else {
            c
        });
        lemma_word_len_is(whole, n);
        words_of_two_parts(x.skip(n), c, y);
        assert(whole.skip(n) =~= x.skip(n) + seq![c] + y);
        assert(whole.take(n) =~= x.take(n));
        assert(words(whole) =~= words(x) + words(y));
    }
}

pub proof fn lemma_one_word(w: Seq<char>)
    requires
        is_word(w),
    ensures
        words(w) == seq![w],
{
    lemma_word_len_is(w, w.len() as int);
    assert(w.take(w.len() as int) =~= w);
    assert(w.skip(w.len() as int) =~= seq![]);
    assert(words(seq![]) =~= seq![]);
    assert(words(w) =~= seq![w]);
}

/// One more word behind a space is one more word.
pub proof fn lemma_word_more(x: Seq<char>, w: Seq<char>)
    requires
        is_word(w),
    ensures
        words(x + seq![' '] + w) == words(x).push(w),
{
    words_of_two_parts(x, ' ', w);
    lemma_one_word(w);
    assert(words(x) + seq![w] =~= words(x).push(w));
}

/// Words that are written with one space between them read back as they are.
pub proof fn words_read_back(v: Seq<Seq<char>>)
    requires
        forall|i: int| 0 <= i < v.len() ==> is_word(#[trigger] v[i]),
    ensures
        words(join(v, seq![' '])) == v,
    decreases v.len(),
{
    if v.len() == 0 {
        assert(words(join(v, seq![' '])) =~= v);
    } else {
        let t = v.drop_last();
        assert(is_word(v[v.len() - 1]));
        assert forall|i: int| 0 <= i < t.len() implies is_word(#[trigger] t[i]) by {
            assert(t[i] == v[i]);
        }
        words_read_back(t);
        if t.len() == 0 {
            lemma_one_word(v[0]);
            assert(v =~= seq![v[0]]);
        } else {
            lemma_word_more(join(t, seq![' ']), v.last());
            assert(t.push(v.last()) =~= v);
        }
    }
}

proof fn lemma_words_filled(s: Seq<char>, k: int)
    requires
        0 <= k < words(s).len(),
    ensures
        words(s)[k].len() > 0,
    decreases k,
{
    let t = trim_start(s);
    lemma_trim_start_len(s);
    lemma_word_len(t);
    if k > 0 {
        lemma_words_filled(t.skip(word_len(t)), k - 1);
    }
}

/// Every word of a text is one.
pub proof fn lemma_words_are_words(s: Seq<char>, k: int)
    requires
        0 <= k < words(s).len(),
    ensures
        is_word(words(s)[k]),
{
    assert forall|j: int| 0 <= j < words(s)[k].len() implies !is_whitespace(
        #[trigger] words(s)[k][j],
    ) by {
        lemma_words_hold_no_space(s, k, j);
    }
    lemma_words_filled(s, k);
}

/// White space around a text is no part of its words.
pub proof fn words_are_inside(s: Seq<char>)
    ensures
        words(seq![' '] + s) == words(s),
        words(s + seq!['\n']) == words(s),
        words(trim_start(s)) == words(s),
{
    words_of_two_parts(seq![], ' ', s);
    assert(seq![] + seq![' '] + s =~= seq![' '] + s);
    assert(words(seq![]) =~= seq![]);
    assert(seq![] + words(s) =~= words(s));
    words_of_two_parts(s, '\n', seq![]);
    assert(s + seq!['\n'] + seq![] =~= s + seq!['\n']);
    assert(words(s) + seq![] =~= words(s));
    lemma_trim_start_len(s);
    assert(trim_start(trim_start(s)) == trim_start(s));
}

/// Numbers are words.
pub proof fn lemma_digits_are_a_word(s: Seq<char>)
    requires
        s.len() > 0,
        forall|i: int| 0 <= i < s.len() ==> '!' <= #[trigger] s[i] <= '~',
    ensures
        is_word(s),
{
}

/// The word behind the last word that is `key`.
pub open spec fn behind(w: Seq<Seq<char>>, key: Seq<char>) -> Option<Seq<char>>
    decreases w.len(),
{
    if w.len() < 2 {
        None
    } else if w[w.len() - 2] == key {
        Some(w.last())
    } else {
        behind(w.drop_last(), key)
    }
}

/// What a command says of a word: the word behind it.
pub open spec fn told(command: Seq<char>, key: Seq<char>) -> Option<Seq<char>> {
    behind(words(command), key)
}

/// A text is found where it first stands.
pub proof fn lemma_found_first(x: Seq<char>, p: Seq<char>, y: Seq<char>)
    requires
        forall|j: int| 0 <= j < x.len() ==> !has_at(x + p + y, p, j),
    ensures
        find(x + p + y, p) == Some(x.len() as int),
        before_str(x + p + y, p) == x,
        after_str(x + p + y, p) == Some(y),
{
    let whole = x + p + y;
    let n = x.len() as int;
    assert(whole.subrange(n, n + p.len()) =~= p);
    assert(has_at(whole, p, n));
    lemma_find_from(whole, p, 0);
    let i = find(whole, p)->0;
    if i < n {
        assert(!has_at(whole, p, i));
    }
    assert(whole.take(n) =~= x);
    assert(whole.skip(n + p.len()) =~= y);
}

/// Where the first character of a text does not come again in it, the text
/// stands nowhere earlier than where it is put, unless it stands in what is in
/// front of it.
pub proof fn lemma_nowhere_earlier(x: Seq<char>, p: Seq<char>, y: Seq<char>)
    requires
        p.len() > 0,
        forall|k: int| 0 < k < p.len() ==> #[trigger] p[k] != p[0],
        !contains(x, p),
    ensures
        forall|j: int| 0 <= j < x.len() ==> !has_at(x + p + y, p, j),
        after_str(x + p + y, p) == Some(y),
        before_str(x + p + y, p) == x,
{
    let whole = x + p + y;
    assert forall|j: int| 0 <= j < x.len() implies !has_at(whole, p, j) by {
        if has_at(whole, p, j) {
            if j + p.len() <= x.len() {
                assert(x.subrange(j, j + p.len()) =~= whole.subrange(j, j + p.len()));
                assert(has_at(x, p, j));
            } else {
                let k = x.len() - j;
                assert(whole.subrange(j, j + p.len())[k] == whole[x.len() as int]);
                assert(whole[x.len() as int] == p[0]);
                assert(p[k] != p[0]);
            }
        }
    }
    lemma_found_first(x, p, y);
}

/// What follows the last of a character.
pub proof fn lemma_last_field_is(x: Seq<char>, c: char, y: Seq<char>)
    requires
        !y.contains(c),
    ensures
        last_field(x + seq![c] + y, c) == y,
{
    let whole = x + seq![c] + y;
    lemma_rfind_char(whole, c);
    let i = rfind_char(whole, c);
    let n = x.len() as int;
    assert(whole[n] == c);
    if i > n {
        assert(y[i - n - 1] == c);
    }
    assert(i == n);
    assert(whole.skip(n + 1) =~= y);
}

/// A text that was put in front or behind is found there.
pub proof fn lemma_affixes(a: Seq<char>, b: Seq<char>)
    ensures
        starts_with(a + b, a),
        ends_with(a + b, b),
        strip_prefix(a + b, a) == Some(b),
        strip_suffix(a + b, b) == Some(a),
{
    assert((a + b).subrange(0, a.len() as int) =~= a);
    assert((a + b).subrange(a.len() as int, (a + b).len() as int) =~= b);
    assert((a + b).skip(a.len() as int) =~= b);
    assert((a + b).take(a.len() as int) =~= a);
}

/// The first of some lines that begins in a way.
pub proof fn lemma_first_starting_is(ls: Seq<Seq<char>>, p: Seq<char>, i: int)
    requires
        0 <= i < ls.len(),
        starts_with(ls[i], p),
        forall|k: int| 0 <= k < i ==> !starts_with(#[trigger] ls[k], p),
    ensures
        first_starting(ls, p) == Some(ls[i]),
    decreases i,
{
    if i > 0 {
        assert(!starts_with(ls[0], p));
        assert forall|k: int| 0 <= k < i - 1 implies !starts_with(#[trigger] ls.skip(1)[k], p) by {
            assert(ls.skip(1)[k] == ls[k + 1]);
        }
        lemma_first_starting_is(ls.skip(1), p, i - 1);
    }
}

pub proof fn lemma_none_starting(ls: Seq<Seq<char>>, p: Seq<char>)
    requires
        forall|k: int| 0 <= k < ls.len() ==> !starts_with(#[trigger] ls[k], p),
    ensures
        first_starting(ls, p) is None,
    decreases ls.len(),
{
    if ls.len() > 0 {
        assert(!starts_with(ls[0], p));
        assert forall|k: int| 0 <= k < ls.skip(1).len() implies !starts_with(
            #[trigger] ls.skip(1)[k],
            p,
        ) by {
            assert(ls.skip(1)[k] == ls[k + 1]);
        }
        lemma_none_starting(ls.skip(1), p);
    }
}

pub proof fn lemma_first_holding_is(ls: Seq<Seq<char>>, p: Seq<char>, i: int)
    requires
        0 <= i < ls.len(),
        contains(ls[i], p),
        forall|k: int| 0 <= k < i ==> !contains(#[trigger] ls[k], p),
    ensures
        first_holding(ls, p) == Some(ls[i]),
    decreases i,
{
    if i > 0 {
        assert(!contains(ls[0], p));
        assert forall|k: int| 0 <= k < i - 1 implies !contains(#[trigger] ls.skip(1)[k], p) by {
            assert(ls.skip(1)[k] == ls[k + 1]);
        }
        lemma_first_holding_is(ls.skip(1), p, i - 1);
    }
}

/// Without a suffix that it has once.
pub proof fn lemma_suffix_gone(s: Seq<char>, p: Seq<char>)
    requires
        p.len() > 0,
        !ends_with(s, p),
    ensures
        trim_end_str(s + p, p) == s,
{
    lemma_affixes(s, p);
    assert((s + p).take((s + p).len() - p.len()) =~= s);
    assert(trim_end_str(s + p, p) == trim_end_str(s, p));
}

/// What stands between two texts is in the whole.
pub proof fn lemma_inside(a: Seq<char>, b: Seq<char>, c: Seq<char>)
    ensures
        contains(a + b + c, b),
{
    let whole = a + b + c;
    let at = a.len() as int;
    assert(whole.subrange(at, at + b.len()) =~= b);
    assert(has_at(whole, b, at));
}

/// A text with something in front of it and something behind.
pub open spec fn amid(a: Seq<char>, b: Seq<char>, c: Seq<char>) -> Seq<char> {
    a + b + c
}

/// Every line is in the text that the lines make up.
pub proof fn lemma_line_inside(v: Seq<Seq<char>>, i: int)
    requires
        0 <= i < v.len(),
    ensures
        exists|a: Seq<char>, c: Seq<char>| unlines(v) == #[trigger] amid(a, v[i], c),
    decreases v.len(),
{
    let t = v.drop_last();
    if i < t.len() {
        lemma_line_inside(t, i);
        let (a, c) = choose|a: Seq<char>, c: Seq<char>| unlines(t) == #[trigger] amid(a, t[i], c);
        let d = c + v.last() + seq!['\n'];
        assert(unlines(v) =~= amid(a, v[i], d));
    } else {
        assert(unlines(v) =~= amid(unlines(t), v[i], seq!['\n']));
    }
}

} // verus!
