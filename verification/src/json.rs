//! JSON documents: values, and the strings in them.

use vstd::prelude::*;
use vstd::string::*;

use crate::num::{
    dec, digit_char, digit_value, hex4, lemma_digit_char, push_hex4, push_truth, truth,
};
use crate::text::{chars_of, join, joined, lemma_texts_push, starts_with, texts};

verus! {

/// Formatting controls that are not seen themselves but change how their
/// neighbours are: the bidirectional and the invisible ones.
///
/// A process names itself, and one of these can make a name render as another
/// than the one the kernel holds.
pub open spec fn invisible(c: char) -> bool {
    let n = c as u32;
    ||| 0x200b <= n <= 0x200f
    ||| 0x202a <= n <= 0x202e
    ||| 0x2060 <= n <= 0x2064
    ||| 0x2066 <= n <= 0x206f
    ||| n == 0xfeff
}

pub open spec fn control(c: char) -> bool {
    (c as u32) < 0x20 || c as u32 == 0x7f
}

/// How a character is written inside a JSON string.
pub open spec fn escape(c: char) -> Seq<char> {
    if c == '"' {
        seq!['\\', '"']
    } else if c == '\\' {
        seq!['\\', '\\']
    } else if c == '\n' {
        seq!['\\', 'n']
    } else if c == '\r' {
        seq!['\\', 'r']
    } else if c == '\t' {
        seq!['\\', 't']
    } else if control(c) || invisible(c) {
        seq!['\\', 'u'] + hex4(c as u32 as nat)
    } else {
        seq![c]
    }
}

/// How a text is written inside a JSON string.
pub open spec fn escaped(s: Seq<char>) -> Seq<char>
    decreases s.len(),
{
    if s.len() == 0 {
        seq![]
    } else {
        escaped(s.drop_last()) + escape(s.last())
    }
}

/// A text as a JSON string, quotes and all.
pub open spec fn quoted(s: Seq<char>) -> Seq<char> {
    "\""@ + escaped(s) + "\""@
}

/// A JSON value.
pub enum Json {
    Null,
    Truth(bool),
    Number(nat),
    Text(Seq<char>),
    List(Seq<Json>),
    Object(Seq<(Seq<char>, Json)>),
}

impl Json {
    /// A value as it is written, without white space.
    pub open spec fn text(self) -> Seq<char>
        decreases self,
    {
        match self {
            Json::Null => "null"@,
            Json::Truth(b) => truth(b),
            Json::Number(n) => dec(n),
            Json::Text(s) => quoted(s),
            Json::List(v) => "["@ + items_text(v) + "]"@,
            Json::Object(m) => "{"@ + members_text(m) + "}"@,
        }
    }
}

/// Values with commas between them.
pub open spec fn items_text(v: Seq<Json>) -> Seq<char>
    decreases v,
{
    if v.len() == 0 {
        seq![]
    } else if v.len() == 1 {
        v.last().text()
    } else {
        items_text(v.drop_last()) + ","@ + v.last().text()
    }
}

/// Members of an object with commas between them.
pub open spec fn members_text(m: Seq<(Seq<char>, Json)>) -> Seq<char>
    decreases m,
{
    if m.len() == 0 {
        seq![]
    } else if m.len() == 1 {
        quoted(m.last().0) + ":"@ + m.last().1.text()
    } else {
        members_text(m.drop_last()) + ","@ + (quoted(m.last().0) + ":"@ + m.last().1.text())
    }
}

/// A list of strings.
pub open spec fn strings(v: Seq<Seq<char>>) -> Json {
    Json::List(Seq::new(v.len(), |i: int| Json::Text(v[i])))
}

/// An optional text, or `null`.
pub open spec fn text_or_null(o: Option<Seq<char>>) -> Json {
    match o {
        Some(s) => Json::Text(s),
        None => Json::Null,
    }
}

/// An optional number, or `null`.
pub open spec fn number_or_null(o: Option<nat>) -> Json {
    match o {
        Some(n) => Json::Number(n),
        None => Json::Null,
    }
}

fn push_escape(out: &mut String, c: char)
    ensures
        final(out)@ == old(out)@ + escape(c),
{
    let ghost before = out@;
    if c == '"' {
        out.push('\\');
        out.push('"');
    } else if c == '\\' {
        out.push('\\');
        out.push('\\');
    } else if c == '\n' {
        out.push('\\');
        out.push('n');
    } else if c == '\r' {
        out.push('\\');
        out.push('r');
    } else if c == '\t' {
        out.push('\\');
        out.push('t');
    } else {
        let n: u32 = c as u32;
        if n < 0x20 || n == 0x7f || (0x200b <= n && n <= 0x200f) || (0x202a <= n && n <= 0x202e)
            || (0x2060 <= n && n <= 0x2064) || (0x2066 <= n && n <= 0x206f) || n == 0xfeff {
            out.push('\\');
            out.push('u');
            push_hex4(out, n as u16);
        } else {
            out.push(c);
        }
    }
    assert(out@ =~= before + escape(c));
}

/// A text as it is written inside a JSON string.
pub fn esc(s: &str) -> (r: String)
    ensures
        r@ == escaped(s@),
{
    let v: Vec<char> = chars_of(s);
    let mut out: String = String::new();
    let mut i: usize = 0;
    assert(v@.take(0) =~= Seq::<char>::empty());
    while i < v.len()
        invariant
            i <= v@.len(),
            v@ == s@,
            out@ == escaped(v@.take(i as int)),
        decreases v@.len() - i,
    {
        assert(v@.take(i + 1).drop_last() =~= v@.take(i as int));
        push_escape(&mut out, v[i]);
        i += 1;
    }
    assert(v@.take(i as int) =~= v@);
    out
}

/// A text as a JSON string.
pub fn quote(s: &str) -> (r: String)
    ensures
        r@ == quoted(s@),
{
    let mut out: String = String::from_str("\"");
    out.append(esc(s).as_str());
    out.append("\"");
    out
}

/// The texts of some values.
pub open spec fn value_texts(v: Seq<Json>) -> Seq<Seq<char>> {
    Seq::new(v.len(), |i: int| v[i].text())
}

proof fn lemma_items_joined(v: Seq<Json>)
    ensures
        items_text(v) == join(value_texts(v), ","@),
    decreases v.len(),
{
    if v.len() > 0 {
        lemma_items_joined(v.drop_last());
        assert(value_texts(v).drop_last() =~= value_texts(v.drop_last()));
        assert(value_texts(v).last() == v.last().text());
    }
}

/// A list of values that are written already.
pub(crate) fn list(items: &Vec<String>, values: Ghost<Seq<Json>>) -> (r: String)
    requires
        texts(items@) == value_texts(values@),
    ensures
        r@ == Json::List(values@).text(),
{
    proof {
        lemma_items_joined(values@);
    }
    let mut out: String = String::from_str("[");
    out.append(joined(items, ",").as_str());
    out.append("]");
    out
}

/// A JSON array of strings.
pub fn arr(items: &[String]) -> (r: String)
    ensures
        r@ == strings(texts(items@)).text(),
{
    let ghost values = Seq::new(items@.len(), |i: int| Json::Text(texts(items@)[i]));
    let mut v: Vec<String> = Vec::new();
    let mut i: usize = 0;
    while i < items.len()
        invariant
            i <= items@.len(),
            values == Seq::new(items@.len(), |i: int| Json::Text(texts(items@)[i])),
            texts(v@) =~= value_texts(values).take(i as int),
        decreases items@.len() - i,
    {
        let ghost before = v@;
        v.push(quote(items[i].as_str()));
        proof {
            lemma_texts_push(before, v@.last());
        }
        i += 1;
    }
    assert(texts(v@) =~= value_texts(values));
    list(&v, Ghost(values))
}

/// An object that is being written.
pub(crate) struct Members {
    text: String,
    any: bool,
    members: Ghost<Seq<(Seq<char>, Json)>>,
}

impl View for Members {
    type V = Seq<(Seq<char>, Json)>;

    closed spec fn view(&self) -> Seq<(Seq<char>, Json)> {
        self.members@
    }
}

impl Members {
    /// What is written is the members so far.
    pub(crate) closed spec fn wf(&self) -> bool {
        self.text@ == members_text(self.members@) && self.any == (self.members@.len() > 0)
    }

    pub(crate) fn new() -> (r: Self)
        ensures
            r.wf(),
            r@ == Seq::<(Seq<char>, Json)>::empty(),
    {
        let text: String = String::new();
        assert(text@ =~= seq![]);
        Members { text, any: false, members: Ghost(Seq::empty()) }
    }

    /// A member whose value is written already.
    pub(crate) fn put(&mut self, key: &str, value: &str, json: Ghost<Json>)
        requires
            old(self).wf(),
            value@ == json@.text(),
        ensures
            final(self).wf(),
            final(self)@ == old(self)@.push((key@, json@)),
    {
        let ghost before = self.members@;
        let ghost written = self.text@;
        let ghost after = before.push((key@, json@));
        assert(after.drop_last() =~= before);
        if self.any {
            self.text.append(",");
        }
        self.text.append(quote(key).as_str());
        self.text.append(":");
        self.text.append(value);
        self.any = true;
        self.members = Ghost(after);
        proof {
            let own = quoted(key@) + ":"@ + json@.text();
            if before.len() > 0 {
                assert(self.text@ =~= written + ","@ + own);
            } else {
                assert(self.text@ =~= own);
            }
        }
    }

    pub(crate) fn put_text(&mut self, key: &str, s: &str)
        requires
            old(self).wf(),
        ensures
            final(self).wf(),
            final(self)@ == old(self)@.push((key@, Json::Text(s@))),
    {
        let value: String = quote(s);
        self.put(key, value.as_str(), Ghost(Json::Text(s@)));
    }

    pub(crate) fn put_number(&mut self, key: &str, n: u64)
        requires
            old(self).wf(),
        ensures
            final(self).wf(),
            final(self)@ == old(self)@.push((key@, Json::Number(n as nat))),
    {
        let value: String = crate::num::dec_of(n);
        self.put(key, value.as_str(), Ghost(Json::Number(n as nat)));
    }

    pub(crate) fn put_truth(&mut self, key: &str, b: bool)
        requires
            old(self).wf(),
        ensures
            final(self).wf(),
            final(self)@ == old(self)@.push((key@, Json::Truth(b))),
    {
        let mut value: String = String::new();
        push_truth(&mut value, b);
        assert(value@ =~= truth(b));
        self.put(key, value.as_str(), Ghost(Json::Truth(b)));
    }

    pub(crate) fn put_null(&mut self, key: &str)
        requires
            old(self).wf(),
        ensures
            final(self).wf(),
            final(self)@ == old(self)@.push((key@, Json::Null)),
    {
        self.put(key, "null", Ghost(Json::Null));
    }

    pub(crate) fn put_strings(&mut self, key: &str, items: &[String])
        requires
            old(self).wf(),
        ensures
            final(self).wf(),
            final(self)@ == old(self)@.push((key@, strings(texts(items@)))),
    {
        let value: String = arr(items);
        self.put(key, value.as_str(), Ghost(strings(texts(items@))));
    }

    pub(crate) fn put_list(&mut self, key: &str, items: &Vec<String>, values: Ghost<Seq<Json>>)
        requires
            old(self).wf(),
            texts(items@) == value_texts(values@),
        ensures
            final(self).wf(),
            final(self)@ == old(self)@.push((key@, Json::List(values@))),
    {
        let value: String = list(items, values);
        self.put(key, value.as_str(), Ghost(Json::List(values@)));
    }

    /// The object, with all its members.
    pub(crate) fn close(self) -> (r: String)
        requires
            self.wf(),
        ensures
            r@ == Json::Object(self@).text(),
    {
        let mut out: String = String::from_str("{");
        out.append(self.text.as_str());
        out.append("}");
        out
    }
}

// ---------------------------------------------------------------------------
// Laws
// ---------------------------------------------------------------------------

/// Where a JSON string ends, read from behind its opening quote: at the first
/// quote that no backslash stands for.
pub open spec fn string_end(t: Seq<char>) -> int
    decreases t.len(),
{
    if t.len() == 0 || t[0] == '"' {
        0
    } else if t[0] == '\\' && t.len() >= 2 {
        2 + string_end(t.skip(2))
    } else {
        1 + string_end(t.skip(1))
    }
}

proof fn lemma_escape(c: char)
    ensures
        escape(c).len() > 0,
        forall|i: int| 0 <= i < escape(c).len() ==> !control(#[trigger] escape(c)[i]) && !invisible(
            escape(c)[i],
        ),
{
    let n = c as u32 as nat;
    assert forall|d: nat| true implies !control(#[trigger] digit_char(d)) && !invisible(
        digit_char(d),
    ) by {}
    if control(c) || invisible(c) {
        assert(hex4(n)[0] == digit_char(n / 4096 % 16));
        assert(hex4(n)[1] == digit_char(n / 256 % 16));
        assert(hex4(n)[2] == digit_char(n / 16 % 16));
        assert(hex4(n)[3] == digit_char(n % 16));
    }
}

/// What is written inside a JSON string holds no control character and nothing
/// invisible, whatever the text holds.
pub proof fn escaped_text_holds_no_control(s: Seq<char>, i: int)
    requires
        0 <= i < escaped(s).len(),
    ensures
        !control(escaped(s)[i]),
        !invisible(escaped(s)[i]),
    decreases s.len(),
{
    let t = escaped(s.drop_last());
    lemma_escape(s.last());
    if i < t.len() {
        escaped_text_holds_no_control(s.drop_last(), i);
    } else {
        assert(escaped(s)[i] == escape(s.last())[i - t.len()]);
    }
}

pub proof fn lemma_escaped_front(s: Seq<char>)
    requires
        s.len() > 0,
    ensures
        escaped(s) == escape(s[0]) + escaped(s.skip(1)),
    decreases s.len(),
{
    if s.len() == 1 {
        assert(s.drop_last() =~= Seq::<char>::empty());
        assert(s.skip(1) =~= Seq::<char>::empty());
        assert(escaped(s) =~= escape(s[0]) + escaped(s.skip(1)));
    } else {
        lemma_escaped_front(s.drop_last());
        assert(s.drop_last().skip(1) =~= s.skip(1).drop_last());
        assert(s.skip(1).last() == s.last());
        assert(escaped(s) =~= escape(s[0]) + escaped(s.skip(1)));
    }
}

/// Reading past plain characters.
proof fn lemma_plain_front(p: Seq<char>, rest: Seq<char>)
    requires
        forall|i: int| 0 <= i < p.len() ==> #[trigger] p[i] != '"' && p[i] != '\\',
    ensures
        string_end(p + rest) == p.len() + string_end(rest),
    decreases p.len(),
{
    if p.len() == 0 {
        assert(p + rest =~= rest);
    } else {
        let q = p.skip(1);
        assert forall|i: int| 0 <= i < q.len() implies #[trigger] q[i] != '"' && q[i] != '\\' by {
            assert(q[i] == p[i + 1]);
        }
        lemma_plain_front(q, rest);
        assert((p + rest).skip(1) =~= q + rest);
        assert((p + rest)[0] == p[0]);
    }
}

proof fn lemma_escape_is_skipped(c: char, rest: Seq<char>)
    ensures
        string_end(escape(c) + rest) == escape(c).len() + string_end(rest),
{
    let e = escape(c);
    let t = e + rest;
    if e.len() == 1 {
        lemma_plain_front(e, rest);
    } else if e.len() == 2 {
        assert(t[0] == '\\');
        assert(t.skip(2) =~= rest);
    } else {
        let n = c as u32 as nat;
        assert(t[0] == '\\');
        assert(t.skip(2) =~= hex4(n) + rest);
        assert forall|i: int| 0 <= i < hex4(n).len() implies #[trigger] hex4(n)[i] != '"' && hex4(
            n,
        )[i] != '\\' by {}
        lemma_plain_front(hex4(n), rest);
    }
}

/// Nothing in a text can end the string it is written into: the string ends at
/// the quote that was put behind it.
pub proof fn an_escaped_text_cannot_end_its_string(s: Seq<char>, rest: Seq<char>)
    ensures
        string_end(escaped(s) + seq!['"'] + rest) == escaped(s).len(),
    decreases s.len(),
{
    if s.len() == 0 {
        assert((escaped(s) + seq!['"'] + rest)[0] == '"');
    } else {
        let tail = escaped(s.skip(1)) + seq!['"'] + rest;
        an_escaped_text_cannot_end_its_string(s.skip(1), rest);
        lemma_escaped_front(s);
        lemma_escape_is_skipped(s[0], tail);
        assert(escaped(s) + seq!['"'] + rest =~= escape(s[0]) + tail);
    }
}

/// A text without quotes, backslashes, controls and invisible characters is
/// written as it is.
pub proof fn a_plain_text_is_left_alone(s: Seq<char>)
    requires
        forall|i: int|
            0 <= i < s.len() ==> #[trigger] s[i] != '"' && s[i] != '\\' && !control(s[i])
                && !invisible(s[i]),
    ensures
        escaped(s) == s,
    decreases s.len(),
{
    if s.len() > 0 {
        let t = s.drop_last();
        assert forall|i: int| 0 <= i < t.len() implies #[trigger] t[i] != '"' && t[i] != '\\'
            && !control(t[i]) && !invisible(t[i]) by {
            assert(t[i] == s[i]);
        }
        a_plain_text_is_left_alone(t);
        assert(s.last() == s[s.len() - 1]);
        assert(escaped(s) =~= s);
    } else {
        assert(escaped(s) =~= s);
    }
}

/// A JSON text, read: what is left behind the string whose opening quote stands
/// in front of it.
pub open spec fn behind_string(t: Seq<char>) -> Option<Seq<char>>
    decreases t.len(),
{
    if t.len() == 0 || (t[0] as u32) < 0x20 {
        None
    } else if t[0] == '"' {
        Some(t.skip(1))
    } else if t[0] == '\\' {
        if t.len() >= 2 && (t[1] == '"' || t[1] == '\\' || t[1] == '/' || t[1] == 'b' || t[1] == 'f'
            || t[1] == 'n' || t[1] == 'r' || t[1] == 't') {
            behind_string(t.skip(2))
        } else if t.len() >= 6 && t[1] == 'u' && any_hex(t[2]) && any_hex(t[3]) && any_hex(t[4])
            && any_hex(t[5]) {
            behind_string(t.skip(6))
        } else {
            None
        }
    } else {
        behind_string(t.skip(1))
    }
}

pub open spec fn any_hex(c: char) -> bool {
    '0' <= c <= '9' || 'a' <= c <= 'f' || 'A' <= c <= 'F'
}

/// What is left behind the digits at the front of a text.
pub open spec fn behind_digits(t: Seq<char>) -> Seq<char>
    decreases t.len(),
{
    if t.len() > 0 && '0' <= t[0] <= '9' {
        behind_digits(t.skip(1))
    } else {
        t
    }
}

/// What is left behind the value at the front of a text, where there is one, as
/// far as `n` steps reach. Numbers are whole and not negative, and there is no
/// white space.
pub open spec fn behind_value(t: Seq<char>, n: nat) -> Option<Seq<char>>
    decreases n,
{
    if n == 0 || t.len() == 0 {
        None
    } else if t[0] == '"' {
        behind_string(t.skip(1))
    } else if t[0] == '0' {
        Some(t.skip(1))
    } else if '1' <= t[0] <= '9' {
        Some(behind_digits(t))
    } else if t[0] == '[' {
        if t.len() > 1 && t[1] == ']' {
            Some(t.skip(2))
        } else {
            behind_items(t.skip(1), (n - 1) as nat)
        }
    } else if t[0] == '{' {
        if t.len() > 1 && t[1] == '}' {
            Some(t.skip(2))
        } else {
            behind_members(t.skip(1), (n - 1) as nat)
        }
    } else if starts_with(t, "null"@) || starts_with(t, "true"@) {
        Some(t.skip(4))
    } else if starts_with(t, "false"@) {
        Some(t.skip(5))
    } else {
        None
    }
}

/// What is left behind the items of a list and its closing bracket.
pub open spec fn behind_items(t: Seq<char>, n: nat) -> Option<Seq<char>>
    decreases n,
{
    if n == 0 {
        None
    } else {
        match behind_value(t, (n - 1) as nat) {
            Some(r) => if r.len() > 0 && r[0] == ',' {
                behind_items(r.skip(1), (n - 1) as nat)
            } else if r.len() > 0 && r[0] == ']' {
                Some(r.skip(1))
            } else {
                None
            },
            None => None,
        }
    }
}

/// What is left behind the members of an object and its closing brace.
pub open spec fn behind_members(t: Seq<char>, n: nat) -> Option<Seq<char>>
    decreases n,
{
    if n == 0 || t.len() == 0 || t[0] != '"' {
        None
    } else {
        match behind_string(t.skip(1)) {
            Some(k) => if k.len() > 0 && k[0] == ':' {
                match behind_value(k.skip(1), (n - 1) as nat) {
                    Some(r) => if r.len() > 0 && r[0] == ',' {
                        behind_members(r.skip(1), (n - 1) as nat)
                    } else if r.len() > 0 && r[0] == '}' {
                        Some(r.skip(1))
                    } else {
                        None
                    },
                    None => None,
                }
            } else {
                None
            },
            None => None,
        }
    }
}

/// Whether a text is one JSON value and nothing else.
pub open spec fn is_json(t: Seq<char>) -> bool {
    exists|n: nat| #[trigger] behind_value(t, n) == Some(Seq::<char>::empty())
}

proof fn lemma_escape_read(c: char, rest: Seq<char>)
    ensures
        behind_string(escape(c) + rest) == behind_string(rest),
{
    let t = escape(c) + rest;
    if escape(c).len() == 1 {
        assert(t[0] == c);
        assert(t.skip(1) =~= rest);
    } else if escape(c).len() == 2 {
        assert(t[0] == '\\');
        assert(t.skip(2) =~= rest);
    } else {
        let n = c as u32 as nat;
        assert(t[0] == '\\' && t[1] == 'u');
        assert(t[2] == hex4(n)[0] && t[3] == hex4(n)[1] && t[4] == hex4(n)[2] && t[5]
            == hex4(n)[3]);
        lemma_digit_char(n / 4096 % 16);
        lemma_digit_char(n / 256 % 16);
        lemma_digit_char(n / 16 % 16);
        lemma_digit_char(n % 16);
        assert(t.skip(6) =~= rest);
    }
}

proof fn lemma_string_read(s: Seq<char>, rest: Seq<char>)
    ensures
        behind_string(escaped(s) + (seq!['"'] + rest)) == Some(rest),
    decreases s.len(),
{
    let end = seq!['"'] + rest;
    if s.len() == 0 {
        assert(escaped(s) + end =~= end);
        assert(end.skip(1) =~= rest);
    } else {
        lemma_string_read(s.skip(1), rest);
        lemma_escaped_front(s);
        lemma_escape_read(s[0], escaped(s.skip(1)) + end);
        assert(escaped(s) + end =~= escape(s[0]) + (escaped(s.skip(1)) + end));
    }
}

/// A quoted text begins with a quote, and behind that it is a string.
proof fn lemma_quoted_read(s: Seq<char>, rest: Seq<char>)
    ensures
        (quoted(s) + rest).len() > 0,
        (quoted(s) + rest)[0] == '"',
        behind_string((quoted(s) + rest).skip(1)) == Some(rest),
{
    reveal_strlit("\"");
    lemma_string_read(s, rest);
    assert((quoted(s) + rest).skip(1) =~= escaped(s) + (seq!['"'] + rest));
}

proof fn lemma_digits_read(d: Seq<char>, rest: Seq<char>)
    requires
        forall|i: int| 0 <= i < d.len() ==> '0' <= #[trigger] d[i] <= '9',
        rest.len() > 0 ==> !('0' <= rest[0] <= '9'),
    ensures
        behind_digits(d + rest) == rest,
    decreases d.len(),
{
    if d.len() == 0 {
        assert(d + rest =~= rest);
    } else {
        let t = d.skip(1);
        assert forall|i: int| 0 <= i < t.len() implies '0' <= #[trigger] t[i] <= '9' by {
            assert(t[i] == d[i + 1]);
        }
        lemma_digits_read(t, rest);
        assert((d + rest)[0] == d[0]);
        assert((d + rest).skip(1) =~= t + rest);
    }
}

/// Whether a value can stand in front of a text: nothing of the text is taken
/// for a part of it.
spec fn parted(rest: Seq<char>) -> bool {
    rest.len() > 0 ==> rest[0] == ',' || rest[0] == ']' || rest[0] == '}'
}

proof fn lemma_dec_front(n: nat)
    ensures
        dec(n).len() > 0,
        n < 10 ==> dec(n).len() == 1,
        dec(n)[0] == '0' ==> n == 0,
        forall|i: int| 0 <= i < dec(n).len() ==> '0' <= #[trigger] dec(n)[i] <= '9',
    decreases n,
{
    if n >= 10 {
        lemma_dec_front(n / 10);
    }
}

proof fn lemma_items_front(v: Seq<Json>)
    requires
        v.len() > 1,
    ensures
        items_text(v) == v[0].text() + (","@ + items_text(v.skip(1))),
    decreases v.len(),
{
    let t = v.drop_last();
    let u = v.skip(1);
    assert(u.drop_last() =~= t.skip(1));
    assert(u.last() == v.last());
    if v.len() == 2 {
        assert(t.last() == v[0]);
        assert(items_text(t) == v[0].text());
        assert(items_text(u) == v.last().text());
        assert(items_text(v) =~= v[0].text() + (","@ + items_text(u)));
    } else {
        lemma_items_front(t);
        assert(items_text(v) =~= v[0].text() + (","@ + items_text(u)));
    }
}

/// A member of an object, as it is written.
spec fn member_text(m: (Seq<char>, Json)) -> Seq<char> {
    quoted(m.0) + ":"@ + m.1.text()
}

proof fn lemma_members_front(m: Seq<(Seq<char>, Json)>)
    requires
        m.len() > 1,
    ensures
        members_text(m) == member_text(m[0]) + (","@ + members_text(m.skip(1))),
    decreases m.len(),
{
    let t = m.drop_last();
    let u = m.skip(1);
    assert(u.drop_last() =~= t.skip(1));
    assert(u.last() == m.last());
    if m.len() == 2 {
        assert(t.last() == m[0]);
        assert(members_text(t) == member_text(m[0]));
        assert(members_text(u) == member_text(m.last()));
        assert(members_text(m) =~= member_text(m[0]) + (","@ + members_text(u)));
    } else {
        lemma_members_front(t);
        assert(members_text(m) =~= member_text(m[0]) + (","@ + members_text(u)));
    }
}

proof fn lemma_first_char(v: Json)
    ensures
        v.text().len() > 0,
        v.text()[0] != ']',
        v.text()[0] != '}',
{
    reveal_strlit("null");
    reveal_strlit("true");
    reveal_strlit("false");
    reveal_strlit("\"");
    reveal_strlit("[");
    reveal_strlit("{");
    if let Json::Number(n) = v {
        lemma_dec_front(n);
        assert('0' <= dec(n)[0] <= '9');
    }
}

proof fn lemma_scalar_read(v: Json, rest: Seq<char>, n: nat)
    requires
        !(v is List),
        !(v is Object),
        parted(rest),
        n > 0,
    ensures
        behind_value(v.text() + rest, n) == Some(rest),
{
    reveal_strlit("null");
    reveal_strlit("true");
    reveal_strlit("false");
    let t = v.text() + rest;
    match v {
        Json::Null => {
            assert(t.subrange(0, 4) =~= "null"@);
            assert(t.skip(4) =~= rest);
        },
        Json::Truth(b) => {
            if b {
                assert(t.subrange(0, 4) =~= "true"@);
                assert(t.skip(4) =~= rest);
            } else {
                assert(t[0] == 'f');
                assert(t.subrange(0, 4)[0] == 'f');
                assert(!starts_with(t, "null"@) && !starts_with(t, "true"@));
                assert(t.subrange(0, 5) =~= "false"@);
                assert(t.skip(5) =~= rest);
            }
        },
        Json::Number(k) => {
            lemma_dec_front(k);
            assert(t[0] == dec(k)[0]);
            assert('0' <= dec(k)[0] <= '9');
            if dec(k)[0] == '0' {
                assert(t.skip(1) =~= rest);
            } else {
                lemma_digits_read(dec(k), rest);
            }
        },
        Json::Text(s) => {
            lemma_quoted_read(s, rest);
        },
        _ => {},
    }
}

proof fn lemma_value_read(v: Json, rest: Seq<char>, n: nat)
    requires
        parted(rest),
        n >= v.text().len(),
    ensures
        behind_value(v.text() + rest, n) == Some(rest),
    decreases v, 1int,
{
    reveal_strlit("[");
    reveal_strlit("]");
    reveal_strlit("{");
    reveal_strlit("}");
    lemma_first_char(v);
    let t = v.text() + rest;
    match v {
        Json::List(items) => {
            if items.len() == 0 {
                assert(t[0] == '[' && t[1] == ']');
                assert(t.skip(2) =~= rest);
            } else {
                lemma_items_start(items);
                assert(t[0] == '[');
                assert(t.skip(1) =~= items_text(items) + (seq![']'] + rest));
                assert(t[1] == items_text(items)[0]);
                lemma_items_read(items, rest, (n - 1) as nat);
            }
        },
        Json::Object(members) => {
            if members.len() == 0 {
                assert(t[0] == '{' && t[1] == '}');
                assert(t.skip(2) =~= rest);
            } else {
                lemma_members_start(members);
                assert(t[0] == '{');
                assert(t.skip(1) =~= members_text(members) + (seq!['}'] + rest));
                assert(t[1] == members_text(members)[0]);
                lemma_members_read(members, rest, (n - 1) as nat);
            }
        },
        _ => {
            lemma_scalar_read(v, rest, n);
        },
    }
}

proof fn lemma_items_start(v: Seq<Json>)
    requires
        v.len() > 0,
    ensures
        items_text(v).len() >= v[0].text().len() > 0,
        items_text(v)[0] == v[0].text()[0],
        items_text(v)[0] != ']',
{
    lemma_first_char(v[0]);
    if v.len() > 1 {
        lemma_items_front(v);
    }
}

proof fn lemma_members_start(m: Seq<(Seq<char>, Json)>)
    requires
        m.len() > 0,
    ensures
        members_text(m).len() > 0,
        members_text(m)[0] == '"',
{
    reveal_strlit("\"");
    if m.len() > 1 {
        lemma_members_front(m);
    }
}

proof fn lemma_items_read(v: Seq<Json>, rest: Seq<char>, n: nat)
    requires
        v.len() > 0,
        n > items_text(v).len(),
    ensures
        behind_items(items_text(v) + (seq![']'] + rest), n) == Some(rest),
    decreases v, 0int,
{
    reveal_strlit(",");
    let end = seq![']'] + rest;
    let m = (n - 1) as nat;
    if v.len() == 1 {
        assert(v.last() == v[0]);
        lemma_value_read(v[0], end, m);
        assert(end.skip(1) =~= rest);
    } else {
        lemma_items_front(v);
        let u = v.skip(1);
        let more = ","@ + (items_text(u) + end);
        assert(items_text(v) + end =~= v[0].text() + more);
        lemma_value_read(v[0], more, m);
        assert(more.skip(1) =~= items_text(u) + end);
        lemma_items_read(u, rest, m);
    }
}

proof fn lemma_members_read(v: Seq<(Seq<char>, Json)>, rest: Seq<char>, n: nat)
    requires
        v.len() > 0,
        n > members_text(v).len(),
    ensures
        behind_members(members_text(v) + (seq!['}'] + rest), n) == Some(rest),
    decreases v, 0int,
{
    reveal_strlit(",");
    reveal_strlit(":");
    let end = seq!['}'] + rest;
    let m = (n - 1) as nat;
    let (k, x) = v[0];
    if v.len() == 1 {
        assert(v.last() == v[0]);
        let value = x.text() + end;
        let all = members_text(v) + end;
        assert(all =~= quoted(k) + (":"@ + value));
        lemma_quoted_read(k, ":"@ + value);
        assert((":"@ + value).skip(1) =~= value);
        lemma_value_read(x, end, m);
        assert(end.skip(1) =~= rest);
    } else {
        lemma_members_front(v);
        let u = v.skip(1);
        let more = ","@ + (members_text(u) + end);
        let value = x.text() + more;
        let all = members_text(v) + end;
        assert(all =~= quoted(k) + (":"@ + value));
        lemma_quoted_read(k, ":"@ + value);
        assert((":"@ + value).skip(1) =~= value);
        lemma_value_read(x, more, m);
        assert(more.skip(1) =~= members_text(u) + end);
        lemma_members_read(u, rest, m);
    }
}

/// What is written for a value is JSON, whatever texts the value holds.
pub proof fn every_value_is_written_as_json(v: Json)
    ensures
        is_json(v.text()),
{
    let none = Seq::<char>::empty();
    lemma_value_read(v, none, v.text().len());
    assert(v.text() + none =~= v.text());
}

// ---------------------------------------------------------------------------
// What is written can be read
// ---------------------------------------------------------------------------

/// The value of four hexadecimal digits.
pub open spec fn four_digits(s: Seq<char>) -> Option<nat> {
    if s.len() < 4 {
        None
    } else {
        match (
            digit_value(s[0], 16),
            digit_value(s[1], 16),
            digit_value(s[2], 16),
            digit_value(s[3], 16),
        ) {
            (Some(a), Some(b), Some(c), Some(d)) => Some(a * 4096 + b * 256 + c * 16 + d),
            _ => None,
        }
    }
}

/// The code points of a text.
pub open spec fn code_points(s: Seq<char>) -> Seq<nat> {
    Seq::new(s.len(), |i: int| s[i] as nat)
}

/// What a JSON string says: a backslash and what follows it stand for one
/// character, and every other character for itself.
pub open spec fn unescaped(s: Seq<char>) -> Option<Seq<nat>>
    decreases s.len(),
{
    if s.len() == 0 {
        Some(seq![])
    } else if s[0] != '\\' {
        one_more(s[0] as nat, unescaped(s.skip(1)))
    } else if s.len() < 2 || s[1] == 'u' && s.len() < 6 {
        None
    } else if s[1] == 'u' {
        match four_digits(s.skip(2)) {
            Some(n) => one_more(n, unescaped(s.skip(6))),
            None => None,
        }
    } else if s[1] == 'n' {
        one_more('\n' as nat, unescaped(s.skip(2)))
    } else if s[1] == 'r' {
        one_more('\r' as nat, unescaped(s.skip(2)))
    } else if s[1] == 't' {
        one_more('\t' as nat, unescaped(s.skip(2)))
    } else {
        one_more(s[1] as nat, unescaped(s.skip(2)))
    }
}

/// A code point in front of what follows it.
pub open spec fn one_more(n: nat, rest: Option<Seq<nat>>) -> Option<Seq<nat>> {
    match rest {
        Some(t) => Some(seq![n] + t),
        None => None,
    }
}

proof fn lemma_four_digits(n: u32, rest: Seq<char>)
    requires
        n < 0x10000,
    ensures
        four_digits(hex4(n as nat) + rest) == Some(n as nat),
{
    let h = hex4(n as nat) + rest;
    let a = n / 4096 % 16;
    let b = n / 256 % 16;
    let c = n / 16 % 16;
    let d = n % 16;
    lemma_digit_char(a as nat);
    lemma_digit_char(b as nat);
    lemma_digit_char(c as nat);
    lemma_digit_char(d as nat);
    assert(h[0] == digit_char(a as nat) && h[1] == digit_char(b as nat) && h[2] == digit_char(
        c as nat,
    ) && h[3] == digit_char(d as nat));
    assert(a * 4096 + b * 256 + c * 16 + d == n) by (bit_vector)
        requires
            n < 0x10000,
            a == n / 4096 % 16,
            b == n / 256 % 16,
            c == n / 16 % 16,
            d == n % 16,
    ;
}

proof fn lemma_unescaped_front(c: char, rest: Seq<char>)
    ensures
        unescaped(escape(c) + rest) == one_more(c as nat, unescaped(rest)),
{
    let e = escape(c) + rest;
    if c == '"' || c == '\\' || c == '\n' || c == '\r' || c == '\t' {
        assert(e[0] == '\\');
        assert(e.skip(2) =~= rest);
    } else if control(c) || invisible(c) {
        let n = c as u32;
        assert(e[0] == '\\' && e[1] == 'u');
        assert(e.skip(2) =~= hex4(n as nat) + rest);
        assert(e.skip(6) =~= rest);
        lemma_four_digits(n, rest);
    } else {
        assert(e[0] == c);
        assert(e.skip(1) =~= rest);
    }
}

/// Every text that is written as a JSON string says that very text.
pub proof fn a_string_says_its_text(s: Seq<char>)
    ensures
        unescaped(escaped(s)) == Some(code_points(s)),
    decreases s.len(),
{
    if s.len() == 0 {
        assert(code_points(s) =~= seq![]);
    } else {
        let t = s.skip(1);
        a_string_says_its_text(t);
        lemma_escaped_front(s);
        lemma_unescaped_front(s[0], escaped(t));
        assert(seq![s[0] as nat] + code_points(t) =~= code_points(s));
    }
}

/// Whether a character is one that is not seen but changes what is: a control, or
/// one that turns or hides its neighbours.
pub open spec fn hidden(c: char) -> bool {
    let n = c as u32;
    n < 0x20 || n == 0x7f || n == 0x200b || n == 0x200c || n == 0x200d || n == 0x200e || n == 0x200f
        || n == 0x202a || n == 0x202b || n == 0x202c || n == 0x202d || n == 0x202e || n == 0x2060
        || n == 0x2061 || n == 0x2062 || n == 0x2063 || n == 0x2064 || n == 0x2066 || n == 0x2067
        || n == 0x2068 || n == 0x2069 || n == 0x206a || n == 0x206b || n == 0x206c || n == 0x206d
        || n == 0x206e || n == 0x206f || n == 0xfeff
}

/// Nothing hidden stands in what is written, and neither does a quote that would
/// end the string: every quote has a backslash in front of it.
pub proof fn nothing_hidden_is_written(s: Seq<char>, i: int)
    requires
        0 <= i < escaped(s).len(),
    ensures
        !hidden(escaped(s)[i]),
        escaped(s)[i] == '"' ==> i > 0 && escaped(s)[i - 1] == '\\',
    decreases s.len(),
{
    let t = s.drop_last();
    let e = escape(s.last());
    let front = escaped(t);
    if i < front.len() {
        nothing_hidden_is_written(t, i);
    } else {
        let k = i - front.len();
        assert(escaped(s)[i] == e[k]);
        if s.last() == '"' && k == 1 {
            assert(escaped(s)[i - 1] == e[0]);
        }
        lemma_escape_is_seen(s.last(), k);
    }
}

proof fn lemma_escape_is_seen(c: char, k: int)
    requires
        0 <= k < escape(c).len(),
    ensures
        !hidden(escape(c)[k]),
        escape(c)[k] == '"' ==> c == '"' && k == 1,
{
    let n = c as u32 as nat;
    lemma_digit_char(n / 4096 % 16);
    lemma_digit_char(n / 256 % 16);
    lemma_digit_char(n / 16 % 16);
    lemma_digit_char(n % 16);
    if control(c) || invisible(c) {
        if c != '"' && c != '\\' && c != '\n' && c != '\r' && c != '\t' {
            let e = escape(c);
            assert(e[0] == '\\' && e[1] == 'u');
            assert(e.len() == 6);
            if k >= 2 {
                let d = if k == 2 {
                    n / 4096 % 16
                } else if k == 3 {
                    n / 256 % 16
                } else if k == 4 {
                    n / 16 % 16
                } else {
                    n % 16
                };
                assert(e[k] == digit_char(d));
            }
        }
    }
}

/// A character that is seen, and that neither ends the string nor escapes, is
/// written as it is.
pub proof fn what_is_seen_is_written_as_it_is(s: Seq<char>)
    requires
        forall|i: int|
            0 <= i < s.len() ==> !hidden(#[trigger] s[i]) && s[i] != '"' && s[i] != '\\',
    ensures
        escaped(s) == s,
    decreases s.len(),
{
    if s.len() > 0 {
        let t = s.drop_last();
        assert forall|i: int| 0 <= i < t.len() implies !hidden(#[trigger] t[i]) && t[i] != '"'
            && t[i] != '\\' by {
            assert(t[i] == s[i]);
        }
        what_is_seen_is_written_as_it_is(t);
        assert(!hidden(s[s.len() - 1]));
        assert(escaped(s) =~= s);
    } else {
        assert(escaped(s) =~= s);
    }
}

/// A list is its values, all of them and in order, with commas between them, and
/// an object is its members.
pub proof fn a_list_is_all_its_values(v: Seq<Json>, m: Seq<(Seq<char>, Json)>)
    ensures
        Json::List(v).text() == "["@ + join(value_texts(v), ","@) + "]"@,
        Json::Object(m).text() == "{"@ + join(
            Seq::new(m.len(), |i: int| quoted(m[i].0) + ":"@ + m[i].1.text()),
            ","@,
        ) + "}"@,
{
    lemma_items_joined(v);
    lemma_members_joined(m);
}

proof fn lemma_members_joined(m: Seq<(Seq<char>, Json)>)
    ensures
        members_text(m) == join(
            Seq::new(m.len(), |i: int| quoted(m[i].0) + ":"@ + m[i].1.text()),
            ","@,
        ),
    decreases m.len(),
{
    let t = Seq::new(m.len(), |i: int| quoted(m[i].0) + ":"@ + m[i].1.text());
    if m.len() > 0 {
        let l = m.drop_last();
        lemma_members_joined(l);
        assert(t.drop_last() =~= Seq::new(
            l.len(),
            |i: int| quoted(l[i].0) + ":"@ + l[i].1.text(),
        ));
    }
}

/// The plain values say what they are.
pub proof fn a_plain_value_says_what_it_is(n: nat, s: Seq<char>)
    ensures
        crate::num::digits_value(Json::Number(n).text(), 10) == Some(n),
        Json::Truth(true).text() == "true"@,
        Json::Truth(false).text() == "false"@,
        Json::Null.text() == "null"@,
        Json::Text(s).text() == seq!['"'] + escaped(s) + seq!['"'],
{
    crate::num::lemma_dec_digits(n);
    reveal_strlit("\"");
    assert(Json::Text(s).text() =~= seq!['"'] + escaped(s) + seq!['"']);
}

/// Texts are listed as they are, in order, and what is not there is `null`.
pub proof fn texts_are_listed_in_order(v: Seq<Seq<char>>, s: Seq<char>, n: nat)
    ensures
        strings(v) matches Json::List(l) && l.len() == v.len() && forall|i: int|
            0 <= i < v.len() ==> #[trigger] l[i] == Json::Text(v[i]),
        text_or_null(Some(s)) == Json::Text(s),
        text_or_null(None) == Json::Null,
        number_or_null(Some(n)) == Json::Number(n),
        number_or_null(None) == Json::Null,
{
}

} // verus!
