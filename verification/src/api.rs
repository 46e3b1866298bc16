//! The routing questions a browser can ask, and the query format they are
//! asked in.
//!
//! A policy arrives as query parameters:
//!
//! ```text
//! /api/plan?admin=203.0.113.7
//!          &default=tor
//!          &rule=unit:nginx.service=direct
//!          &rule=uid:1000=vpn:wg0
//! ```
//!
//! Nothing here applies anything. Every answer is a reading that happens to
//! take arguments.

use vstd::prelude::*;
use vstd::string::*;
use vstd::utf8::*;

use crate::json::{
    escaped, every_value_is_written_as_json, is_json, number_or_null, strings, value_texts, Json,
    Members,
};
use crate::num::{
    dec, dec_reads_back, decimal, digit, digit_char, digit_value, hex, lemma_digit_char, push_hex,
    read_decimal,
};
use crate::order::views;
use crate::policy::{
    mark_views, most_tunnels, plan_for, Host, HostView, Path, PathView, Plan, PlanView, Policy,
    PolicyView, Rule, RuleView, Selector, SelectorView,
};
use crate::preflight::{refusals, Refusal, RefusalView};
use crate::probe::{AdminSession, SessionView};
use crate::shell::{in_quotes, quoted_for_shell, shell_word, word_for_shell};
use crate::snapshot::{lemma_member, member};
use crate::text::{
    chars_of, contains, copy, cut, cut_last, debug_str, debugged, fields, find_char, join, joined,
    lemma_find_char, lemma_find_char_is, lemma_inside, lemma_rfind_char, lemma_texts_push, rfind_char,
    rsplit_once, same, split, split_once, texts,
};

verus! {

// ---------------------------------------------------------------------------
// Queries
// ---------------------------------------------------------------------------

/// The byte that an escape at the front of a text stands for: a percent sign and
/// two digits in base sixteen.
pub open spec fn escape_value(s: Seq<char>) -> Option<u8> {
    if s.len() > 2 && s[0] == '%' {
        match (digit_value(s[1], 16), digit_value(s[2], 16)) {
            (Some(a), Some(b)) => Some((a * 16 + b) as u8),
            _ => None,
        }
    } else {
        None
    }
}

/// The bytes that the escapes at the front of a text stand for, as many as
/// follow one another and at most `n`.
pub open spec fn escaped_bytes(s: Seq<char>, n: nat) -> Seq<u8>
    decreases n,
{
    if n == 0 {
        seq![]
    } else {
        match escape_value(s) {
            Some(v) => seq![v] + escaped_bytes(s.skip(3), (n - 1) as nat),
            None => seq![],
        }
    }
}

pub proof fn lemma_escapes_fit(s: Seq<char>, n: nat)
    ensures
        escaped_bytes(s, n).len() <= n,
        3 * escaped_bytes(s, n).len() <= s.len(),
        n > 0 && escape_value(s) is Some ==> escaped_bytes(s, n).len() > 0,
    decreases n,
{
    if n > 0 && escape_value(s) is Some {
        lemma_escapes_fit(s.skip(3), (n - 1) as nat);
    }
}

/// What a piece of a query decodes to. The escapes stand for bytes, and the
/// bytes for characters in UTF-8, of which one takes at most four. A byte that is
/// no part of a character stands for the code point of its own number. What is no
/// escape stays as written.
pub open spec fn decoded(s: Seq<char>) -> Seq<char>
    decreases s.len(),
{
    if s.len() == 0 {
        seq![]
    } else {
        proof {
            lemma_escapes_fit(s, 4);
        }
        let b = escaped_bytes(s, 4);
        if valid_first_scalar(b) {
            seq![decode_first_scalar(b) as char] + decoded(s.skip(3 * length_of_first_scalar(b)))
        } else {
            match escape_value(s) {
                Some(v) => seq![v as char] + decoded(s.skip(3)),
                None => seq![if s[0] == '+' {
                    ' '
                } else {
                    s[0]
                }] + decoded(s.skip(1)),
            }
        }
    }
}

fn read_escape(cs: &Vec<char>, i: usize) -> (r: Option<u8>)
    requires
        i <= cs@.len(),
    ensures
        r == escape_value(cs@.skip(i as int)),
{
    let ghost t = cs@.skip(i as int);
    if cs.len() - i > 2 && cs[i] == '%' {
        assert(t[0] == cs@[i as int] && t[1] == cs@[i + 1] && t[2] == cs@[i + 2]);
        match (digit(cs[i + 1], 16), digit(cs[i + 2], 16)) {
            (Some(a), Some(b)) => Some((a * 16 + b) as u8),
            _ => None,
        }
    } else {
        None
    }
}

fn read_escapes(cs: &Vec<char>, i: usize, n: u8) -> (r: Vec<u8>)
    requires
        i <= cs@.len(),
    ensures
        r@ == escaped_bytes(cs@.skip(i as int), n as nat),
    decreases n,
{
    let ghost t = cs@.skip(i as int);
    let mut out: Vec<u8> = Vec::new();
    if n > 0 {
        if let Some(v) = read_escape(cs, i) {
            assert(t.len() > 2 && i + 2 < cs.len());
            let mut rest: Vec<u8> = read_escapes(cs, i + 3, n - 1);
            assert(t.skip(3) =~= cs@.skip(i + 3));
            out.push(v);
            out.append(&mut rest);
            assert(out@ =~= escaped_bytes(t, n as nat));
        }
    }
    out
}

/// The character that some bytes begin with, and how many of them it takes.
fn first_scalar(b: &Vec<u8>) -> (r: Option<(char, usize)>)
    ensures
        match r {
            Some((c, n)) => valid_first_scalar(b@) && c == decode_first_scalar(b@) as char && n
                == length_of_first_scalar(b@),
            None => !valid_first_scalar(b@),
        },
{
    if b.len() == 0 {
        return None;
    }
    let (v, n): (u32, usize) = if b[0] <= 0x7f {
        ((b[0] & 0x7f) as u32, 1)
    } else if b.len() >= 2 && 0xc0 <= b[0] && b[0] <= 0xdf && follows(b[1]) {
        ((((b[0] & 0x1f) as u32) << 6) | ((b[1] & 0x3f) as u32), 2)
    } else if b.len() >= 3 && 0xe0 <= b[0] && b[0] <= 0xef && follows(b[1]) && follows(b[2]) {
        (
            (((b[0] & 0x0f) as u32) << 12) | (((b[1] & 0x3f) as u32) << 6) | ((b[2] & 0x3f) as u32),
            3,
        )
    } else if b.len() >= 4 && 0xf0 <= b[0] && b[0] <= 0xf7 && follows(b[1]) && follows(b[2])
        && follows(b[3]) {
        (
            (((b[0] & 0x07) as u32) << 18) | (((b[1] & 0x3f) as u32) << 12) | (((b[2] & 0x3f) as u32)
                << 6) | ((b[3] & 0x3f) as u32),
            4,
        )
    } else {
        return None;
    };
    assert(valid_leading_and_continuation_bytes_first_codepoint(b@));
    assert(v == decode_first_codepoint(b@) && n == length_of_first_codepoint(b@));
    if (n == 2 && v < 0x80) || (n == 3 && v < 0x800) || (n == 4 && (v < 0x10000 || v > 0x10ffff))
        || (0xd800 <= v && v <= 0xdfff) {
        return None;
    }
    proof {
        let x = b@[0];
        assert(((x & 0x7f) as u32) <= 0x7f) by (bit_vector);
        if n == 2 {
            let y = b@[1];
            assert(((((x & 0x1f) as u32) << 6) | ((y & 0x3f) as u32)) <= 0x7ff) by (bit_vector);
        }
        if n == 3 {
            let y = b@[1];
            let z = b@[2];
            assert(((((x & 0x0f) as u32) << 12) | (((y & 0x3f) as u32) << 6) | ((z & 0x3f) as u32))
                <= 0xffff) by (bit_vector);
        }
    }
    match char::from_u32(v) {
        Some(c) => Some((c, n)),
        None => None,
    }
}

/// Whether a byte continues a character.
fn follows(b: u8) -> (r: bool)
    ensures
        r == is_continuation_byte(b),
{
    0x80 <= b && b <= 0xbf
}

/// Percent-decoding, plus `+` for space.
///
/// Invalid escapes are left as written rather than dropped. A selector is
/// matched against a kernel path, so silently altering it would produce a rule
/// that matches nothing, and a rule that matches nothing looks exactly like a
/// policy that applied.
pub fn decode(s: &str) -> (r: String)
    ensures
        r@ == decoded(s@),
{
    let cs: Vec<char> = chars_of(s);
    let ghost all = s@;
    let mut out: String = String::new();
    let mut i: usize = 0;
    assert(all.skip(0) =~= all);
    assert(out@ + decoded(all) =~= decoded(all));
    while i < cs.len()
        invariant
            i <= cs@.len(),
            all == cs@,
            decoded(all) == out@ + decoded(all.skip(i as int)),
        decreases cs@.len() - i,
    {
        let ghost before = out@;
        let ghost t = all.skip(i as int);
        proof {
            lemma_escapes_fit(t, 4);
        }
        let b: Vec<u8> = read_escapes(&cs, i, 4);
        match first_scalar(&b) {
            Some((c, n)) => {
                out.push(c);
                assert(t.skip(3 * n) =~= all.skip(i + 3 * n));
                assert(out@ + decoded(all.skip(i + 3 * n)) =~= before + (seq![c] + decoded(
                    all.skip(i + 3 * n),
                )));
                i += 3 * n;
            },
            None => {
                let (c, n): (char, usize) = match read_escape(&cs, i) {
                    Some(v) => (v as char, 3),
                    None => (if cs[i] == '+' {
                        ' '
                    } else {
                        cs[i]
                    }, 1),
                };
                out.push(c);
                assert(t.skip(n as int) =~= all.skip(i + n));
                assert(out@ + decoded(all.skip(i + n)) =~= before + (seq![c] + decoded(
                    all.skip(i + n),
                )));
                i += n;
            },
        }
    }
    assert(all.skip(i as int) =~= Seq::<char>::empty());
    assert(out@ + Seq::<char>::empty() =~= out@);
    out
}

/// The key and the value of one parameter.
pub open spec fn pair_of(p: Seq<char>) -> (Seq<char>, Seq<char>) {
    match split_once(p, '=') {
        Some((k, v)) => (decoded(k), decoded(v)),
        None => (decoded(p), seq![]),
    }
}

/// The pairs among some parameters. An empty parameter is none.
pub open spec fn pairs_among(parts: Seq<Seq<char>>) -> Seq<(Seq<char>, Seq<char>)>
    decreases parts.len(),
{
    if parts.len() == 0 {
        seq![]
    } else if parts.last().len() == 0 {
        pairs_among(parts.drop_last())
    } else {
        pairs_among(parts.drop_last()).push(pair_of(parts.last()))
    }
}

/// The parameters of a query.
pub open spec fn query_pairs(query: Seq<char>) -> Seq<(Seq<char>, Seq<char>)> {
    pairs_among(split(query, '&'))
}

pub open spec fn pair_views(v: Seq<(String, String)>) -> Seq<(Seq<char>, Seq<char>)> {
    Seq::new(v.len(), |i: int| (v[i].0@, v[i].1@))
}

fn read_pair(p: &str) -> (r: (String, String))
    ensures
        (r.0@, r.1@) == pair_of(p@),
{
    match cut(p, '=') {
        Some((k, v)) => (decode(k.as_str()), decode(v.as_str())),
        None => {
            let empty: String = String::new();
            assert(empty@ =~= seq![]);
            (decode(p), empty)
        },
    }
}

/// Whether a text is empty.
fn is_empty(s: &str) -> (r: bool)
    ensures
        r == (s@.len() == 0),
{
    proof {
        reveal_strlit("");
        if s@.len() == 0 {
            assert(s@ =~= ""@);
        }
    }
    same(s, "")
}

/// Split a query string into key/value pairs, percent-decoded.
pub fn params(query: &str) -> (r: Vec<(String, String)>)
    ensures
        pair_views(r@) == query_pairs(query@),
{
    let parts: Vec<String> = fields(query, '&');
    let ghost all = texts(parts@);
    let mut out: Vec<(String, String)> = Vec::new();
    let mut i: usize = 0;
    assert(all.take(0) =~= Seq::<Seq<char>>::empty());
    assert(pair_views(out@) =~= pairs_among(all.take(0)));
    while i < parts.len()
        invariant
            i <= parts@.len(),
            all == texts(parts@),
            pair_views(out@) == pairs_among(all.take(i as int)),
        decreases parts@.len() - i,
    {
        assert(all.take(i + 1).drop_last() =~= all.take(i as int));
        assert(all.take(i + 1).last() == parts@[i as int]@);
        if !is_empty(parts[i].as_str()) {
            let ghost before = out@;
            let pair: (String, String) = read_pair(parts[i].as_str());
            out.push(pair);
            assert(pair_views(out@) =~= pair_views(before).push((pair.0@, pair.1@)));
        }
        i += 1;
    }
    assert(all.take(i as int) =~= all);
    out
}

// ---------------------------------------------------------------------------
// Spellings
// ---------------------------------------------------------------------------

/// The path a text names.
pub open spec fn path_named(s: Seq<char>) -> Option<PathView> {
    match split_once(s, ':') {
        Some((kind, interface)) => if kind == "vpn"@ && interface.len() > 0 {
            Some(PathView::Vpn { interface })
        } else if kind == "tor-via"@ && interface.len() > 0 {
            Some(PathView::TorViaVpn { interface })
        } else {
            None
        },
        None => if s == "direct"@ {
            Some(PathView::Direct)
        } else if s == "tor"@ {
            Some(PathView::Tor)
        } else {
            None
        },
    }
}

pub open spec fn opt_path(o: Option<Path>) -> Option<PathView> {
    match o {
        Some(p) => Some(p@),
        None => None,
    }
}

/// `direct` | `tor` | `vpn:<iface>` | `tor-via:<iface>`
pub fn parse_path(s: &str) -> (r: Option<Path>)
    ensures
        opt_path(r) == path_named(s@),
{
    match cut(s, ':') {
        Some((kind, interface)) => if same(kind.as_str(), "vpn") && !is_empty(interface.as_str()) {
            Some(Path::Vpn { interface })
        } else if same(kind.as_str(), "tor-via") && !is_empty(interface.as_str()) {
            Some(Path::TorViaVpn { interface })
        } else {
            None
        },
        None => if same(s, "direct") {
            Some(Path::Direct)
        } else if same(s, "tor") {
            Some(Path::Tor)
        } else {
            None
        },
    }
}

/// The selector a text names.
pub open spec fn selector_named(s: Seq<char>) -> Option<SelectorView> {
    match split_once(s, ':') {
        Some((kind, name)) => if kind == "unit"@ && name.len() > 0 {
            Some(SelectorView::Unit(name))
        } else if kind == "cgroup"@ && name.len() > 0 {
            Some(SelectorView::Cgroup(name))
        } else if kind == "uid"@ {
            match decimal(name, u32::MAX as nat) {
                Some(n) => Some(SelectorView::User(n as u32)),
                None => None,
            }
        } else {
            None
        },
        None => None,
    }
}

pub open spec fn opt_selector(o: Option<Selector>) -> Option<SelectorView> {
    match o {
        Some(s) => Some(s@),
        None => None,
    }
}

/// `unit:<name>` | `cgroup:<path>` | `uid:<n>`
pub fn parse_selector(s: &str) -> (r: Option<Selector>)
    ensures
        opt_selector(r) == selector_named(s@),
{
    match cut(s, ':') {
        Some((kind, name)) => if same(kind.as_str(), "unit") && !is_empty(name.as_str()) {
            Some(Selector::Unit(name))
        } else if same(kind.as_str(), "cgroup") && !is_empty(name.as_str()) {
            Some(Selector::Cgroup(name))
        } else if same(kind.as_str(), "uid") {
            match read_decimal(name.as_str(), u32::MAX as u64) {
                Some(n) => Some(Selector::User(n as u32)),
                None => None,
            }
        } else {
            None
        },
        None => None,
    }
}

/// A part of a policy that does not read as one.
#[derive(Debug, PartialEq, Eq)]
pub enum Malformed {
    /// No path is called this.
    Path(String),
    /// No selector is called this.
    Selector(String),
    /// A rule without a selector and a path.
    Rule(String),
}

/// What a [`Malformed`] says.
pub enum MalformedView {
    Path(Seq<char>),
    Selector(Seq<char>),
    Rule(Seq<char>),
}

impl MalformedView {
    /// The text that did not read.
    pub open spec fn subject(self) -> Seq<char> {
        match self {
            MalformedView::Path(s) => s,
            MalformedView::Selector(s) => s,
            MalformedView::Rule(s) => s,
        }
    }

    /// The complaint about it, with that text as it is to be shown.
    pub open spec fn sentence(self, shown: Seq<char>) -> Seq<char> {
        match self {
            MalformedView::Path(_) => "unknown path "@ + shown,
            MalformedView::Selector(_) => "unknown selector "@ + shown,
            MalformedView::Rule(_) => "rule "@ + shown + " is not <selector>=<path>"@,
        }
    }

    pub open spec fn complaint(self) -> Seq<char> {
        self.sentence(debug_str(self.subject()))
    }
}

impl View for Malformed {
    type V = MalformedView;

    open spec fn view(&self) -> MalformedView {
        match *self {
            Malformed::Path(s) => MalformedView::Path(s@),
            Malformed::Selector(s) => MalformedView::Selector(s@),
            Malformed::Rule(s) => MalformedView::Rule(s@),
        }
    }
}

impl Malformed {
    /// The complaint, with the text that did not read as it is to be shown.
    pub fn explain_shown(&self, shown: &str) -> (r: String)
        ensures
            r@ == self@.sentence(shown@),
    {
        match self {
            Malformed::Path(_) => {
                let mut s: String = String::from_str("unknown path ");
                s.append(shown);
                s
            },
            Malformed::Selector(_) => {
                let mut s: String = String::from_str("unknown selector ");
                s.append(shown);
                s
            },
            Malformed::Rule(_) => {
                let mut s: String = String::from_str("rule ");
                s.append(shown);
                s.append(" is not <selector>=<path>");
                s
            },
        }
    }

    /// The complaint, with the text that did not read in quotes.
    pub fn explain(&self) -> (r: String)
        ensures
            r@ == self@.complaint(),
    {
        let shown: String = match self {
            Malformed::Path(s) => debugged(s.as_str()),
            Malformed::Selector(s) => debugged(s.as_str()),
            Malformed::Rule(s) => debugged(s.as_str()),
        };
        self.explain_shown(shown.as_str())
    }
}

/// The rule a text says: what stands before its last equals sign is the
/// selector, what stands behind it the path.
pub open spec fn rule_named(v: Seq<char>) -> Result<RuleView, MalformedView> {
    match rsplit_once(v, '=') {
        Some((sel, path)) => match (selector_named(sel), path_named(path)) {
            (Some(selector), Some(path)) => Ok(RuleView { selector, path }),
            (None, _) => Err(MalformedView::Selector(sel)),
            (_, None) => Err(MalformedView::Path(path)),
        },
        None => Err(MalformedView::Rule(v)),
    }
}

/// `<selector>=<path>`
pub fn parse_rule(v: &str) -> (r: Result<Rule, Malformed>)
    ensures
        match r {
            Ok(rule) => rule_named(v@) == Ok::<RuleView, MalformedView>(rule@),
            Err(m) => rule_named(v@) == Err::<RuleView, MalformedView>(m@),
        },
{
    match cut_last(v, '=') {
        Some((sel, path)) => match (parse_selector(sel.as_str()), parse_path(path.as_str())) {
            (Some(selector), Some(path)) => Ok(Rule { selector, path }),
            (None, _) => Err(Malformed::Selector(sel)),
            (_, None) => Err(Malformed::Path(path)),
        },
        None => Err(Malformed::Rule(copy(v))),
    }
}

// ---------------------------------------------------------------------------
// Policies in queries
// ---------------------------------------------------------------------------

/// What one parameter asks for.
pub enum Part {
    Default(Path),
    Rule(Rule),
    Admin(String),
    Endpoint(String),
    Malformed(Malformed),
    /// Nothing that a policy is made of.
    Other,
}

/// What a [`Part`] says.
pub enum PartView {
    Default(PathView),
    Rule(RuleView),
    Admin(Seq<char>),
    Endpoint(Seq<char>),
    Malformed(MalformedView),
    Other,
}

impl View for Part {
    type V = PartView;

    open spec fn view(&self) -> PartView {
        match *self {
            Part::Default(p) => PartView::Default(p@),
            Part::Rule(r) => PartView::Rule(r@),
            Part::Admin(s) => PartView::Admin(s@),
            Part::Endpoint(s) => PartView::Endpoint(s@),
            Part::Malformed(m) => PartView::Malformed(m@),
            Part::Other => PartView::Other,
        }
    }
}

/// What a parameter asks for.
pub open spec fn part_of(k: Seq<char>, v: Seq<char>) -> PartView {
    if k == "default"@ {
        match path_named(v) {
            Some(p) => PartView::Default(p),
            None => PartView::Malformed(MalformedView::Path(v)),
        }
    } else if k == "rule"@ {
        match rule_named(v) {
            Ok(r) => PartView::Rule(r),
            Err(m) => PartView::Malformed(m),
        }
    } else if k == "admin"@ && v.len() > 0 {
        PartView::Admin(v)
    } else if k == "endpoint"@ && v.len() > 0 {
        PartView::Endpoint(v)
    } else {
        PartView::Other
    }
}

/// What the parameters ask for, one by one.
pub open spec fn parts_of(pairs: Seq<(Seq<char>, Seq<char>)>) -> Seq<PartView> {
    Seq::new(pairs.len(), |i: int| part_of(pairs[i].0, pairs[i].1))
}

pub open spec fn query_parts(query: Seq<char>) -> Seq<PartView> {
    parts_of(query_pairs(query))
}

/// The rules that are asked for.
pub open spec fn rules_among(parts: Seq<PartView>) -> Seq<RuleView>
    decreases parts.len(),
{
    if parts.len() == 0 {
        seq![]
    } else {
        let before = rules_among(parts.drop_last());
        match parts.last() {
            PartView::Rule(r) => before.push(r),
            _ => before,
        }
    }
}

/// Where everything else goes: the last default that is asked for.
pub open spec fn default_among(parts: Seq<PartView>) -> PathView
    decreases parts.len(),
{
    if parts.len() == 0 {
        PathView::Direct
    } else {
        match parts.last() {
            PartView::Default(p) => p,
            _ => default_among(parts.drop_last()),
        }
    }
}

/// The peers that must keep working.
pub open spec fn admins_among(parts: Seq<PartView>) -> Seq<Seq<char>>
    decreases parts.len(),
{
    if parts.len() == 0 {
        seq![]
    } else {
        let before = admins_among(parts.drop_last());
        match parts.last() {
            PartView::Admin(v) => before.push(v),
            _ => before,
        }
    }
}

/// The addresses that must stay outside any tunnel.
pub open spec fn endpoints_among(parts: Seq<PartView>) -> Seq<Seq<char>>
    decreases parts.len(),
{
    if parts.len() == 0 {
        seq![]
    } else {
        let before = endpoints_among(parts.drop_last());
        match parts.last() {
            PartView::Endpoint(v) => before.push(v),
            _ => before,
        }
    }
}

/// What does not read.
pub open spec fn malformed_among(parts: Seq<PartView>) -> Seq<MalformedView>
    decreases parts.len(),
{
    if parts.len() == 0 {
        seq![]
    } else {
        let before = malformed_among(parts.drop_last());
        match parts.last() {
            PartView::Malformed(m) => before.push(m),
            _ => before,
        }
    }
}

/// The policy that is asked for.
pub open spec fn policy_asked(parts: Seq<PartView>) -> PolicyView {
    PolicyView { rules: rules_among(parts), default_path: default_among(parts) }
}

/// The host it is compiled against. Who administers it is what the request
/// confirms, and nothing else.
pub open spec fn host_asked(parts: Seq<PartView>, base: HostView) -> HostView {
    HostView {
        admin_peers: admins_among(parts),
        tunnel_endpoints: base.tunnel_endpoints + endpoints_among(parts),
        ..base
    }
}

/// The complaints about what does not read.
pub open spec fn complaints(m: Seq<MalformedView>) -> Seq<Seq<char>> {
    Seq::new(m.len(), |i: int| m[i].complaint())
}

fn read_part(k: &str, v: String) -> (r: Part)
    ensures
        r@ == part_of(k@, v@),
{
    if same(k, "default") {
        match parse_path(v.as_str()) {
            Some(p) => Part::Default(p),
            None => Part::Malformed(Malformed::Path(v)),
        }
    } else if same(k, "rule") {
        match parse_rule(v.as_str()) {
            Ok(r) => Part::Rule(r),
            Err(m) => Part::Malformed(m),
        }
    } else if same(k, "admin") && !is_empty(v.as_str()) {
        Part::Admin(v)
    } else if same(k, "endpoint") && !is_empty(v.as_str()) {
        Part::Endpoint(v)
    } else {
        Part::Other
    }
}

/// Build a policy and the host it is compiled against, and keep what does not
/// read apart.
pub fn policy_parts(query: &str, base: Host) -> (r: (Policy, Host, Vec<Malformed>))
    ensures
        r.0@ == policy_asked(query_parts(query@)),
        r.1@ == host_asked(query_parts(query@), base@),
        views(r.2@) == malformed_among(query_parts(query@)),
{
    let pairs: Vec<(String, String)> = params(query);
    let ghost seen = pair_views(pairs@);
    let ghost all = parts_of(seen);
    let mut policy: Policy = Policy::default();
    let mut host: Host = base;
    host.admin_peers = Vec::new();
    let ghost first = host.tunnel_endpoints@;
    let mut bad: Vec<Malformed> = Vec::new();
    let mut i: usize = 0;
    assert(all.take(0) =~= Seq::<PartView>::empty());
    assert(views(bad@) =~= Seq::<MalformedView>::empty());
    assert(texts(host.admin_peers@) =~= Seq::<Seq<char>>::empty());
    assert(texts(first) =~= texts(first) + Seq::<Seq<char>>::empty());
    while i < pairs.len()
        invariant
            i <= pairs@.len(),
            seen == pair_views(pairs@),
            all == parts_of(seen),
            policy@ == policy_asked(all.take(i as int)),
            host.interfaces == base.interfaces,
            host.tor_trans_port == base.tor_trans_port,
            host.tor_dns_port == base.tor_dns_port,
            host.tor_uid == base.tor_uid,
            host.rp_filter == base.rp_filter,
            host.cgroups == base.cgroups,
            texts(host.admin_peers@) == admins_among(all.take(i as int)),
            texts(host.tunnel_endpoints@) == texts(first) + endpoints_among(all.take(i as int)),
            views(bad@) == malformed_among(all.take(i as int)),
        decreases pairs@.len() - i,
    {
        let ghost now = all.take(i as int);
        assert(all.take(i + 1).drop_last() =~= now);
        let part: Part = read_part(pairs[i].0.as_str(), copy(pairs[i].1.as_str()));
        assert(all.take(i + 1).last() == part@);
        match part {
            Part::Default(p) => {
                policy.default_path = p;
            },
            Part::Rule(r) => {
                let ghost before = policy.rules@;
                policy.rules.push(r);
                assert(views(policy.rules@) =~= views(before).push(r@));
            },
            Part::Admin(v) => {
                let ghost before = host.admin_peers@;
                host.admin_peers.push(v);
                proof {
                    lemma_texts_push(before, v);
                }
            },
            Part::Endpoint(v) => {
                let ghost before = host.tunnel_endpoints@;
                host.tunnel_endpoints.push(v);
                proof {
                    lemma_texts_push(before, v);
                    assert(texts(before).push(v@) =~= texts(first) + endpoints_among(now).push(v@));
                }
            },
            Part::Malformed(m) => {
                let ghost before = bad@;
                bad.push(m);
                assert(views(bad@) =~= views(before).push(m@));
            },
            Part::Other => {},
        }
        i += 1;
    }
    assert(all.take(i as int) =~= all);
    (policy, host, bad)
}

/// Build a policy and the host it is compiled against.
///
/// `admin` values come from the request because the operator confirms them;
/// see [`crate::probe::admin_candidates`] for why they are not simply detected.
/// An unparseable parameter is reported rather than skipped: a dropped rule is
/// a policy that quietly does less than it says.
pub fn policy_from_query(query: &str, base: Host) -> (r: (Policy, Host, Vec<String>))
    ensures
        r.0@ == policy_asked(query_parts(query@)),
        r.1@ == host_asked(query_parts(query@), base@),
        texts(r.2@) == complaints(malformed_among(query_parts(query@))),
{
    let (policy, host, bad): (Policy, Host, Vec<Malformed>) = policy_parts(query, base);
    let ghost all = views(bad@);
    let mut out: Vec<String> = Vec::new();
    let mut i: usize = 0;
    while i < bad.len()
        invariant
            i <= bad@.len(),
            all == views(bad@),
            texts(out@) =~= complaints(all).take(i as int),
        decreases bad@.len() - i,
    {
        let ghost before = out@;
        let s: String = bad[i].explain();
        out.push(s);
        proof {
            lemma_texts_push(before, s);
            assert(all[i as int] == bad@[i as int]@);
        }
        i += 1;
    }
    assert(texts(out@) =~= complaints(all));
    (policy, host, out)
}

// ---------------------------------------------------------------------------
// Answers
// ---------------------------------------------------------------------------

/// JSON string escaping, the same as the snapshot's.
pub fn esc(s: &str) -> (r: String)
    ensures
        r@ == escaped(s@),
{
    crate::json::esc(s)
}

pub open spec fn opt_port(o: Option<u16>) -> Option<nat> {
    match o {
        Some(p) => Some(p as nat),
        None => None,
    }
}

pub open spec fn opt_uid(o: Option<u32>) -> Option<nat> {
    match o {
        Some(u) => Some(u as nat),
        None => None,
    }
}

/// A session as a JSON object.
pub open spec fn session_object(s: SessionView) -> Json {
    Json::Object(
        seq![
            ("peer"@, Json::Text(s.peer)),
            ("port"@, Json::Number(s.port as nat)),
            ("holder"@, Json::Text(s.holder)),
            ("likely"@, Json::Truth(s.likely)),
            ("evidence"@, Json::Text(s.evidence)),
        ],
    )
}

pub open spec fn session_objects(s: Seq<SessionView>) -> Seq<Json> {
    Seq::new(s.len(), |i: int| session_object(s[i]))
}

/// A host as a JSON object.
pub open spec fn host_object(
    host: HostView,
    sessions: Seq<SessionView>,
    active: Seq<Seq<char>>,
) -> Json {
    Json::Object(
        seq![
            ("interfaces"@, strings(host.interfaces)),
            ("cgroups"@, strings(host.cgroups)),
            ("active"@, strings(active)),
            ("torTransPort"@, number_or_null(opt_port(host.tor_trans_port))),
            ("torDnsPort"@, number_or_null(opt_port(host.tor_dns_port))),
            ("torUid"@, number_or_null(opt_uid(host.tor_uid))),
            ("sessions"@, Json::List(session_objects(sessions))),
        ],
    )
}

fn put_port(out: &mut Members, key: &str, o: Option<u16>)
    requires
        old(out).wf(),
    ensures
        final(out).wf(),
        final(out)@ == old(out)@.push((key@, number_or_null(opt_port(o)))),
{
    match o {
        Some(p) => out.put_number(key, p as u64),
        None => out.put_null(key),
    }
}

fn put_uid(out: &mut Members, key: &str, o: Option<u32>)
    requires
        old(out).wf(),
    ensures
        final(out).wf(),
        final(out)@ == old(out)@.push((key@, number_or_null(opt_uid(o)))),
{
    match o {
        Some(u) => out.put_number(key, u as u64),
        None => out.put_null(key),
    }
}

fn session_json(s: &AdminSession) -> (r: String)
    ensures
        r@ == session_object(s@).text(),
{
    let mut out: Members = Members::new();
    out.put_text("peer", s.peer.as_str());
    out.put_number("port", s.port as u64);
    out.put_text("holder", s.holder.as_str());
    out.put_truth("likely", s.likely);
    out.put_text("evidence", s.evidence.as_str());
    assert(out@ =~= session_object(s@)->Object_0);
    out.close()
}

fn sessions_json(sessions: &[AdminSession]) -> (r: Vec<String>)
    ensures
        texts(r@) == value_texts(session_objects(views(sessions@))),
{
    let ghost all = views(sessions@);
    let ghost values = session_objects(all);
    let mut out: Vec<String> = Vec::new();
    let mut i: usize = 0;
    while i < sessions.len()
        invariant
            i <= sessions@.len(),
            all == views(sessions@),
            values == session_objects(all),
            texts(out@) =~= value_texts(values).take(i as int),
        decreases sessions@.len() - i,
    {
        let ghost before = out@;
        let s: String = session_json(&sessions[i]);
        out.push(s);
        proof {
            lemma_texts_push(before, s);
            assert(all[i as int] == sessions@[i as int]@);
        }
        i += 1;
    }
    assert(texts(out@) =~= value_texts(values));
    out
}

/// What the host offers: interfaces, selectable cgroups, Tor's state, and the
/// sessions a person needs to confirm.
pub fn host_json(host: &Host, sessions: &[AdminSession], active: &[String]) -> (r: String)
    ensures
        r@ == host_object(host@, views(sessions@), texts(active@)).text(),
{
    let mut out: Members = Members::new();
    out.put_strings("interfaces", host.interfaces.as_slice());
    out.put_strings("cgroups", host.cgroups.as_slice());
    out.put_strings("active", active);
    put_port(&mut out, "torTransPort", host.tor_trans_port);
    put_port(&mut out, "torDnsPort", host.tor_dns_port);
    put_uid(&mut out, "torUid", host.tor_uid);
    let entries: Vec<String> = sessions_json(sessions);
    out.put_list("sessions", &entries, Ghost(session_objects(views(sessions@))));
    assert(out@ =~= host_object(host@, views(sessions@), texts(active@))->Object_0);
    out.close()
}

/// The option of the command line that a parameter becomes, its value as one
/// word for a shell. Rules are not among them: they come last.
pub open spec fn option_for(k: Seq<char>, v: Seq<char>) -> Option<Seq<char>> {
    if k == "default"@ {
        Some("--default "@ + shell_word(v))
    } else if k == "admin"@ && v.len() > 0 {
        Some("--admin "@ + shell_word(v))
    } else if k == "endpoint"@ && v.len() > 0 {
        Some("--endpoint "@ + shell_word(v))
    } else {
        None
    }
}

pub open spec fn options_for(pairs: Seq<(Seq<char>, Seq<char>)>) -> Seq<Seq<char>>
    decreases pairs.len(),
{
    if pairs.len() == 0 {
        seq![]
    } else {
        let before = options_for(pairs.drop_last());
        match option_for(pairs.last().0, pairs.last().1) {
            Some(o) => before.push(o),
            None => before,
        }
    }
}

pub open spec fn rule_option(v: Seq<char>) -> Seq<char> {
    "--rule "@ + in_quotes(v)
}

pub open spec fn rule_options(pairs: Seq<(Seq<char>, Seq<char>)>) -> Seq<Seq<char>>
    decreases pairs.len(),
{
    if pairs.len() == 0 {
        seq![]
    } else {
        let before = rule_options(pairs.drop_last());
        if pairs.last().0 == "rule"@ {
            before.push(rule_option(pairs.last().1))
        } else {
            before
        }
    }
}

/// The pieces of the command that applies what a query asks for.
pub open spec fn command_words(pairs: Seq<(Seq<char>, Seq<char>)>) -> Seq<Seq<char>> {
    (seq!["sudo tl-plan"@] + options_for(pairs) + rule_options(pairs)).push(
        "--apply --deadman 120"@,
    )
}

/// One piece to a line, each line but the last carried on by a backslash.
pub open spec fn command_for(query: Seq<char>) -> Seq<char> {
    join(command_words(query_pairs(query)), " \\\n    "@)
}

fn option_text(k: &str, v: &str) -> (r: Option<String>)
    ensures
        crate::text::opt_string(r) == option_for(k@, v@),
{
    if same(k, "default") {
        let mut s: String = String::from_str("--default ");
        s.append(word_for_shell(v).as_str());
        Some(s)
    } else if same(k, "admin") && !is_empty(v) {
        let mut s: String = String::from_str("--admin ");
        s.append(word_for_shell(v).as_str());
        Some(s)
    } else if same(k, "endpoint") && !is_empty(v) {
        let mut s: String = String::from_str("--endpoint ");
        s.append(word_for_shell(v).as_str());
        Some(s)
    } else {
        None
    }
}

/// The command that would apply this plan, exactly as it must be typed.
///
/// The browser does not apply anything. The server runs as root so that it can
/// read every process's sockets, and a routing change reachable from a web
/// request is a different thing entirely. So the screen produces the command
/// and a person runs it. Its values come from a request, so each is written as
/// one word for the shell that the command is typed into.
pub fn apply_command(query: &str) -> (r: String)
    ensures
        r@ == command_for(query@),
{
    let pairs: Vec<(String, String)> = params(query);
    let ghost all = pair_views(pairs@);
    let first: String = String::from_str("sudo tl-plan");
    let mut cmd: Vec<String> = Vec::new();
    cmd.push(first);
    let mut rules: Vec<String> = Vec::new();
    let mut i: usize = 0;
    assert(all.take(0) =~= Seq::<(Seq<char>, Seq<char>)>::empty());
    assert(texts(cmd@) =~= seq!["sudo tl-plan"@] + options_for(all.take(0)));
    assert(texts(rules@) =~= rule_options(all.take(0)));
    while i < pairs.len()
        invariant
            i <= pairs@.len(),
            all == pair_views(pairs@),
            texts(cmd@) == seq!["sudo tl-plan"@] + options_for(all.take(i as int)),
            texts(rules@) == rule_options(all.take(i as int)),
        decreases pairs@.len() - i,
    {
        assert(all.take(i + 1).drop_last() =~= all.take(i as int));
        assert(all.take(i + 1).last() == (pairs@[i as int].0@, pairs@[i as int].1@));
        let k: &str = pairs[i].0.as_str();
        let v: &str = pairs[i].1.as_str();
        if let Some(o) = option_text(k, v) {
            let ghost before = cmd@;
            cmd.push(o);
            proof {
                lemma_texts_push(before, o);
                assert(texts(before).push(o@) =~= seq!["sudo tl-plan"@] + options_for(
                    all.take(i as int),
                ).push(o@));
            }
        }
        if same(k, "rule") {
            let mut o: String = String::from_str("--rule ");
            o.append(quoted_for_shell(v).as_str());
            let ghost before = rules@;
            rules.push(o);
            proof {
                lemma_texts_push(before, o);
            }
        }
        i += 1;
    }
    assert(all.take(i as int) =~= all);
    let ghost options = texts(cmd@);
    let mut j: usize = 0;
    assert(options + texts(rules@).take(0) =~= options);
    while j < rules.len()
        invariant
            j <= rules@.len(),
            texts(cmd@) == options + texts(rules@).take(j as int),
        decreases rules@.len() - j,
    {
        let ghost before = cmd@;
        let o: String = copy(rules[j].as_str());
        cmd.push(o);
        proof {
            lemma_texts_push(before, o);
            assert(texts(before).push(o@) =~= options + texts(rules@).take(j + 1));
        }
        j += 1;
    }
    assert(texts(rules@).take(j as int) =~= texts(rules@));
    let ghost before = cmd@;
    let last: String = String::from_str("--apply --deadman 120");
    cmd.push(last);
    proof {
        lemma_texts_push(before, last);
    }
    joined(&cmd, " \\\n    ")
}

/// A path and its mark as a JSON object.
pub open spec fn mark_object(label: Seq<char>, mark: u32) -> Json {
    Json::Object(
        seq![("path"@, Json::Text(label)), ("mark"@, Json::Text("0x"@ + hex(mark as nat)))],
    )
}

pub open spec fn mark_objects(marks: Seq<(Seq<char>, u32)>) -> Seq<Json> {
    Seq::new(marks.len(), |i: int| mark_object(marks[i].0, marks[i].1))
}

/// A plan as a JSON object, with everything wrong with it.
pub open spec fn plan_object(
    plan: PlanView,
    refused: Seq<Seq<char>>,
    bad: Seq<Seq<char>>,
    command: Seq<char>,
) -> Json {
    Json::Object(
        seq![
            ("nft"@, Json::Text(plan.nft)),
            ("ip"@, strings(plan.ip)),
            ("torrc"@, strings(plan.torrc)),
            ("notes"@, strings(plan.notes)),
            ("refusals"@, strings(refused)),
            ("malformed"@, strings(bad)),
            ("marks"@, Json::List(mark_objects(plan.marks))),
            ("applyable"@, Json::Truth(refused.len() == 0 && bad.len() == 0)),
            ("revert"@, strings(plan.revert)),
            ("command"@, Json::Text(command)),
        ],
    )
}

/// The refusals in words.
pub open spec fn explanations(r: Seq<RefusalView>) -> Seq<Seq<char>> {
    Seq::new(r.len(), |i: int| r[i].sentence(debug_str(r[i].subject())))
}

fn marks_json(plan: &Plan) -> (r: Vec<String>)
    ensures
        texts(r@) == value_texts(mark_objects(plan@.marks)),
{
    let ghost all = plan@.marks;
    let mut out: Vec<String> = Vec::new();
    let mut i: usize = 0;
    while i < plan.marks.len()
        invariant
            i <= plan.marks@.len(),
            all == mark_views(plan.marks@),
            texts(out@) =~= value_texts(mark_objects(all)).take(i as int),
        decreases plan.marks@.len() - i,
    {
        let ghost before = out@;
        let mut mark: String = String::from_str("0x");
        push_hex(&mut mark, plan.marks[i].1 as u64);
        let mut entry: Members = Members::new();
        entry.put_text("path", plan.marks[i].0.as_str());
        entry.put_text("mark", mark.as_str());
        assert(entry@ =~= mark_objects(all)[i as int]->Object_0);
        let s: String = entry.close();
        out.push(s);
        proof {
            lemma_texts_push(before, s);
        }
        i += 1;
    }
    assert(texts(out@) =~= value_texts(mark_objects(all)));
    out
}

fn explained(r: &Vec<Refusal>) -> (out: Vec<String>)
    ensures
        texts(out@) == explanations(views(r@)),
{
    let ghost all = views(r@);
    let mut out: Vec<String> = Vec::new();
    let mut i: usize = 0;
    while i < r.len()
        invariant
            i <= r@.len(),
            all == views(r@),
            texts(out@) =~= explanations(all).take(i as int),
        decreases r@.len() - i,
    {
        let ghost before = out@;
        let s: String = r[i].explain();
        out.push(s);
        proof {
            lemma_texts_push(before, s);
            assert(all[i as int] == r@[i as int]@);
        }
        i += 1;
    }
    assert(texts(out@) =~= explanations(all));
    out
}

/// A plan as JSON, with the refusals and complaints there are.
pub fn plan_document(plan: &Plan, refused: &[String], bad: &[String], command: &str) -> (r: String)
    ensures
        r@ == plan_object(plan@, texts(refused@), texts(bad@), command@).text(),
{
    let mut out: Members = Members::new();
    out.put_text("nft", plan.nft.as_str());
    out.put_strings("ip", plan.ip.as_slice());
    out.put_strings("torrc", plan.torrc.as_slice());
    out.put_strings("notes", plan.notes.as_slice());
    out.put_strings("refusals", refused);
    out.put_strings("malformed", bad);
    let marks: Vec<String> = marks_json(plan);
    out.put_list("marks", &marks, Ghost(mark_objects(plan@.marks)));
    out.put_truth("applyable", refused.len() == 0 && bad.len() == 0);
    out.put_strings("revert", plan.revert.as_slice());
    out.put_text("command", command);
    assert(out@ =~= plan_object(plan@, texts(refused@), texts(bad@), command@)->Object_0);
    out.close()
}

/// A compiled plan plus everything wrong with it.
pub fn plan_json(policy: &Policy, host: &Host, bad: &[String], command: &str) -> (r: String)
    requires
        policy@.tunnels().len() <= most_tunnels(),
    ensures
        r@ == plan_object(
            plan_for(policy@, host@),
            explanations(refusals(plan_for(policy@, host@), policy@, host@)),
            texts(bad@),
            command@,
        ).text(),
{
    let plan: Plan = policy.compile(host);
    let refused: Vec<String> = explained(&plan.preflight(policy, host));
    plan_document(&plan, refused.as_slice(), bad, command)
}

// ---------------------------------------------------------------------------
// Laws
// ---------------------------------------------------------------------------

/// Every answer is JSON, whatever a query or the host's file system holds.
pub proof fn every_answer_is_json(
    host: HostView,
    sessions: Seq<SessionView>,
    active: Seq<Seq<char>>,
    plan: PlanView,
    refused: Seq<Seq<char>>,
    bad: Seq<Seq<char>>,
    command: Seq<char>,
)
    ensures
        is_json(host_object(host, sessions, active).text()),
        is_json(plan_object(plan, refused, bad, command).text()),
{
    every_value_is_written_as_json(host_object(host, sessions, active));
    every_value_is_written_as_json(plan_object(plan, refused, bad, command));
}

/// A text in which no plus sign and no valid escape stands is left as it is
/// written, whatever its characters. A percent sign that starts no escape is not
/// dropped.
pub proof fn what_is_no_escape_is_left_alone(s: Seq<char>)
    requires
        forall|i: int| 0 <= i < s.len() ==> #[trigger] s[i] != '+',
        forall|i: int| 0 <= i < s.len() ==> escape_value(#[trigger] s.skip(i)) is None,
    ensures
        decoded(s) == s,
    decreases s.len(),
{
    if s.len() > 0 {
        assert(s.skip(0) =~= s);
        assert(escaped_bytes(s, 4) =~= seq![]);
        let t = s.skip(1);
        assert forall|i: int| 0 <= i < t.len() implies #[trigger] t[i] != '+' by {
            assert(t[i] == s[i + 1]);
        }
        assert forall|i: int| 0 <= i < t.len() implies escape_value(#[trigger] t.skip(i)) is None by {
            assert(t.skip(i) =~= s.skip(i + 1));
        }
        what_is_no_escape_is_left_alone(t);
        assert(s[0] != '+');
        assert(decoded(s) =~= s);
    } else {
        assert(s =~= seq![]);
    }
}

/// In particular a text without a percent sign and a plus sign.
pub proof fn plain_text_is_left_alone(s: Seq<char>)
    requires
        !s.contains('%'),
        !s.contains('+'),
    ensures
        decoded(s) == s,
{
    assert forall|i: int| 0 <= i < s.len() implies #[trigger] s[i] != '+' by {
        assert(s.contains(s[i]));
    }
    assert forall|i: int| 0 <= i < s.len() implies escape_value(#[trigger] s.skip(i)) is None by {
        assert(s.contains(s[i]));
        assert(s.skip(i)[0] == s[i]);
    }
    what_is_no_escape_is_left_alone(s);
}

/// Some bytes, each as an escape.
pub open spec fn percent(b: Seq<u8>) -> Seq<char>
    decreases b.len(),
{
    if b.len() == 0 {
        seq![]
    } else {
        seq!['%', digit_char((b[0] / 16) as nat), digit_char((b[0] % 16) as nat)] + percent(
            b.skip(1),
        )
    }
}

proof fn lemma_percent(b: Seq<u8>, n: nat)
    ensures
        percent(b).len() == 3 * b.len(),
        escaped_bytes(percent(b), n) == b.take(if b.len() < n {
            b.len() as int
        } else {
            n as int
        }),
        b.len() >= n ==> percent(b).skip(3 * n as int) == percent(b.skip(n as int)),
    decreases b.len(),
{
    let p = percent(b);
    if b.len() == 0 {
        assert(p =~= seq![]);
        assert(b.take(0) =~= seq![]);
        if n == 0 {
            assert(b.skip(0) =~= b);
            assert(p.skip(0) =~= p);
        }
    } else {
        let t = b.skip(1);
        lemma_digit_char((b[0] / 16) as nat);
        lemma_digit_char((b[0] % 16) as nat);
        assert(p.skip(3) =~= percent(t));
        if n == 0 {
            lemma_percent(t, 0);
            assert(b.take(0) =~= seq![]);
            assert(b.skip(0) =~= b);
            assert(p.skip(0) =~= p);
        } else {
            let m = (n - 1) as nat;
            lemma_percent(t, m);
            assert(escape_value(p) == Some(b[0]));
            let k = if b.len() < n {
                b.len() as int
            } else {
                n as int
            };
            assert(b.take(k) =~= seq![b[0]] + t.take(k - 1));
            if b.len() >= n {
                assert(p.skip(3 * n as int) =~= p.skip(3).skip(3 * m as int));
                assert(b.skip(n as int) =~= t.skip(m as int));
            }
        }
    }
}

/// Every text can be written in a query: its bytes, each as an escape, decode to
/// the text.
pub proof fn an_escaped_text_decodes_to_itself(s: Seq<char>)
    ensures
        decoded(percent(encode_utf8(s))) == s,
    decreases s.len(),
{
    let b = encode_utf8(s);
    let p = percent(b);
    lemma_percent(b, 4);
    if s.len() == 0 {
        assert(p =~= seq![]);
        assert(s =~= seq![]);
    } else {
        encode_utf8_first_scalar(s);
        let n = length_of_first_scalar(b);
        let e = escaped_bytes(p, 4);
        assert(e[0] == b[0]);
        assert(valid_first_scalar(e) && length_of_first_scalar(e) == n && decode_first_scalar(e)
            == decode_first_scalar(b));
        char_u32_cast(s[0], decode_first_scalar(b));
        lemma_percent(b, n as nat);
        assert(b.skip(n) =~= encode_utf8(s.drop_first()));
        an_escaped_text_decodes_to_itself(s.drop_first());
        assert(decoded(p) =~= seq![s[0]] + s.drop_first());
        assert(s =~= seq![s[0]] + s.drop_first());
    }
}

/// How a path is written.
pub open spec fn path_spelling(p: PathView) -> Seq<char> {
    match p {
        PathView::Direct => "direct"@,
        PathView::Tor => "tor"@,
        PathView::Vpn { interface } => "vpn"@ + seq![':'] + interface,
        PathView::TorViaVpn { interface } => "tor-via"@ + seq![':'] + interface,
    }
}

/// Whether a path can be written: a tunnel needs a name.
pub open spec fn nameable(p: PathView) -> bool {
    p.tunnel() matches Some(i) ==> i.len() > 0
}

proof fn lemma_cut_at(kind: Seq<char>, c: char, rest: Seq<char>)
    requires
        forall|i: int| 0 <= i < kind.len() ==> #[trigger] kind[i] != c,
    ensures
        split_once(kind + seq![c] + rest, c) == Some((kind, rest)),
{
    let whole = kind + seq![c] + rest;
    assert forall|j: int| 0 <= j < kind.len() implies #[trigger] whole[j] != c by {
        assert(whole[j] == kind[j]);
    }
    lemma_find_char_is(whole, c, kind.len() as int);
    assert(whole.take(kind.len() as int) =~= kind);
    assert(whole.skip(kind.len() as int + 1) =~= rest);
}

proof fn lemma_cut_gives(s: Seq<char>, c: char)
    ensures
        split_once(s, c) matches Some((a, b)) ==> s == a + seq![c] + b,
{
    lemma_find_char(s, c);
    let i = find_char(s, c);
    if i < s.len() {
        assert(s =~= s.take(i) + seq![c] + s.skip(i + 1));
    }
}

proof fn lemma_uncut(s: Seq<char>, c: char)
    requires
        forall|i: int| 0 <= i < s.len() ==> #[trigger] s[i] != c,
    ensures
        split_once(s, c) is None,
{
    lemma_find_char_is(s, c, s.len() as int);
}

/// Every path has one spelling, and nothing else names it.
pub proof fn every_spelling_names_its_path_and_nothing_else_does(s: Seq<char>, p: PathView)
    ensures
        path_named(s) == Some(p) <==> nameable(p) && s == path_spelling(p),
{
    reveal_strlit("direct");
    reveal_strlit("tor");
    reveal_strlit("vpn");
    reveal_strlit("tor-via");
    lemma_cut_gives(s, ':');
    lemma_uncut("direct"@, ':');
    lemma_uncut("tor"@, ':');
    assert("direct"@ != "tor"@) by {
        assert("direct"@.len() != "tor"@.len());
    }
    assert("vpn"@ != "tor-via"@) by {
        assert("vpn"@.len() != "tor-via"@.len());
    }
    match p {
        PathView::Vpn { interface } => {
            lemma_cut_at("vpn"@, ':', interface);
        },
        PathView::TorViaVpn { interface } => {
            lemma_cut_at("tor-via"@, ':', interface);
        },
        PathView::Direct | PathView::Tor => {},
    }
}

/// How a selector is written.
pub open spec fn selector_spelling(s: SelectorView) -> Seq<char> {
    match s {
        SelectorView::Unit(name) => "unit"@ + seq![':'] + name,
        SelectorView::Cgroup(path) => "cgroup"@ + seq![':'] + path,
        SelectorView::User(uid) => "uid"@ + seq![':'] + dec(uid as nat),
    }
}

/// Whether a selector can be written: a unit or a cgroup needs a name.
pub open spec fn writable(s: SelectorView) -> bool {
    match s {
        SelectorView::Unit(name) => name.len() > 0,
        SelectorView::Cgroup(path) => path.len() > 0,
        SelectorView::User(_) => true,
    }
}

/// A selector that is written reads back as itself.
pub proof fn a_selector_reads_back(s: SelectorView)
    requires
        writable(s),
    ensures
        selector_named(selector_spelling(s)) == Some(s),
{
    reveal_strlit("unit");
    reveal_strlit("cgroup");
    reveal_strlit("uid");
    assert("unit"@ != "cgroup"@ && "unit"@ != "uid"@ && "cgroup"@ != "uid"@) by {
        assert("unit"@.len() == 4 && "cgroup"@.len() == 6 && "uid"@.len() == 3);
    }
    match s {
        SelectorView::Unit(name) => {
            lemma_cut_at("unit"@, ':', name);
        },
        SelectorView::Cgroup(path) => {
            lemma_cut_at("cgroup"@, ':', path);
        },
        SelectorView::User(uid) => {
            lemma_cut_at("uid"@, ':', dec(uid as nat));
            dec_reads_back(uid as nat, u32::MAX as nat);
        },
    }
}

/// A rule that is written reads back as itself, whatever its selector holds:
/// only the name of a tunnel must be free of the equals sign.
pub proof fn a_rule_reads_back(r: RuleView)
    requires
        writable(r.selector),
        nameable(r.path),
        r.path.tunnel() matches Some(i) ==> forall|k: int|
            0 <= k < i.len() ==> #[trigger] i[k] != '=',
    ensures
        rule_named(selector_spelling(r.selector) + seq!['='] + path_spelling(r.path)) == Ok::<
            RuleView,
            MalformedView,
        >(r),
{
    let sel = selector_spelling(r.selector);
    let path = path_spelling(r.path);
    let whole = sel + seq!['='] + path;
    reveal_strlit("direct");
    reveal_strlit("tor");
    reveal_strlit("vpn");
    reveal_strlit("tor-via");
    assert forall|j: int| 0 <= j < path.len() implies #[trigger] path[j] != '=' by {
        match r.path {
            PathView::Vpn { interface } => {
                if j >= 4 {
                    assert(path[j] == interface[j - 4]);
                }
            },
            PathView::TorViaVpn { interface } => {
                if j >= 8 {
                    assert(path[j] == interface[j - 8]);
                }
            },
            PathView::Direct | PathView::Tor => {},
        }
    }
    lemma_rfind_char(whole, '=');
    let i = rfind_char(whole, '=');
    let at = sel.len() as int;
    assert(whole[at] == '=');
    if i > at {
        assert(whole[i] == path[i - at - 1]);
    }
    assert(i == at);
    assert(whole.take(at) =~= sel);
    assert(whole.skip(at + 1) =~= path);
    a_selector_reads_back(r.selector);
    every_spelling_names_its_path_and_nothing_else_does(path, r.path);
}

/// A parameter that asks for a rule or a default is carried out or reported,
/// never skipped.
pub proof fn nothing_is_dropped(pairs: Seq<(Seq<char>, Seq<char>)>, i: int)
    requires
        0 <= i < pairs.len(),
    ensures
        pairs[i].0 == "rule"@ ==> parts_of(pairs)[i] is Rule || parts_of(pairs)[i] is Malformed,
        pairs[i].0 == "default"@ ==> parts_of(pairs)[i] is Default || parts_of(pairs)[i] is Malformed,
        parts_of(pairs)[i] matches PartView::Rule(r) ==> policy_asked(
            parts_of(pairs),
        ).rules.contains(r),
        parts_of(pairs)[i] matches PartView::Malformed(m) ==> malformed_among(
            parts_of(pairs),
        ).contains(m),
{
    reveal_strlit("rule");
    reveal_strlit("default");
    assert("rule"@ != "default"@) by {
        assert("rule"@.len() != "default"@.len());
    }
    lemma_among(parts_of(pairs), i);
}

proof fn lemma_among(parts: Seq<PartView>, i: int)
    requires
        0 <= i < parts.len(),
    ensures
        parts[i] matches PartView::Rule(r) ==> rules_among(parts).contains(r),
        parts[i] matches PartView::Malformed(m) ==> malformed_among(parts).contains(m),
    decreases parts.len(),
{
    let front = parts.drop_last();
    if i < front.len() {
        assert(front[i] == parts[i]);
        lemma_among(front, i);
        if let PartView::Rule(r) = parts[i] {
            let k = choose|k: int|
                0 <= k < rules_among(front).len() && rules_among(front)[k] == r;
            assert(rules_among(parts)[k] == r);
        }
        if let PartView::Malformed(m) = parts[i] {
            let k = choose|k: int|
                0 <= k < malformed_among(front).len() && malformed_among(front)[k] == m;
            assert(malformed_among(parts)[k] == m);
        }
    } else {
        if let PartView::Rule(r) = parts[i] {
            assert(rules_among(parts).last() == r);
            assert(rules_among(parts)[rules_among(parts).len() - 1] == r);
        }
        if let PartView::Malformed(m) = parts[i] {
            assert(malformed_among(parts)[malformed_among(parts).len() - 1] == m);
        }
    }
}

/// Whoever administers the machine is only whom the request confirms: what was
/// detected before is not carried along.
pub proof fn nobody_is_an_administrator_unasked(query: Seq<char>, a: HostView, b: HostView)
    ensures
        host_asked(query_parts(query), a).admin_peers == host_asked(
            query_parts(query),
            b,
        ).admin_peers,
        host_asked(seq![], a).admin_peers.len() == 0,
{
}

// ---------------------------------------------------------------------------
// What is asked can be written
// ---------------------------------------------------------------------------

proof fn lemma_percent_plain(b: Seq<u8>, i: int)
    requires
        0 <= i < percent(b).len(),
    ensures
        percent(b)[i] != '&' && percent(b)[i] != '=',
    decreases b.len(),
{
    if b.len() > 0 {
        lemma_digit_char((b[0] / 16) as nat);
        lemma_digit_char((b[0] % 16) as nat);
        let front = seq!['%', digit_char((b[0] / 16) as nat), digit_char((b[0] % 16) as nat)];
        if i < 3 {
            assert(percent(b)[i] == front[i]);
        } else {
            assert(percent(b)[i] == percent(b.skip(1))[i - 3]);
            lemma_percent_plain(b.skip(1), i - 3);
        }
    }
}

/// A parameter as it is written in a query: the name, an equals sign and the
/// value, both of them escaped.
pub open spec fn parameter(k: Seq<char>, v: Seq<char>) -> Seq<char> {
    percent(encode_utf8(k)) + seq!['='] + percent(encode_utf8(v))
}

/// Parameters as they are written in a query.
pub open spec fn written_query(pairs: Seq<(Seq<char>, Seq<char>)>) -> Seq<char> {
    join(Seq::new(pairs.len(), |i: int| parameter(pairs[i].0, pairs[i].1)), seq!['&'])
}

proof fn lemma_parameter(k: Seq<char>, v: Seq<char>)
    ensures
        pair_of(parameter(k, v)) == (k, v),
        parameter(k, v).len() > 0,
        forall|i: int| 0 <= i < parameter(k, v).len() ==> #[trigger] parameter(k, v)[i] != '&',
{
    let a = percent(encode_utf8(k));
    let b = percent(encode_utf8(v));
    let p = parameter(k, v);
    assert forall|i: int| 0 <= i < p.len() implies #[trigger] p[i] != '&' by {
        if i < a.len() {
            assert(p[i] == a[i]);
            lemma_percent_plain(encode_utf8(k), i);
        } else if i > a.len() {
            assert(p[i] == b[i - a.len() - 1]);
            lemma_percent_plain(encode_utf8(v), i - a.len() - 1);
        }
    }
    assert forall|i: int| 0 <= i < a.len() implies #[trigger] p[i] != '=' by {
        assert(p[i] == a[i]);
        lemma_percent_plain(encode_utf8(k), i);
    }
    assert(p[a.len() as int] == '=');
    lemma_find_char_is(p, '=', a.len() as int);
    assert(p.take(a.len() as int) =~= a);
    assert(p.skip(a.len() as int + 1) =~= b);
    an_escaped_text_decodes_to_itself(k);
    an_escaped_text_decodes_to_itself(v);
}

proof fn lemma_all_pairs(parts: Seq<Seq<char>>, pairs: Seq<(Seq<char>, Seq<char>)>)
    requires
        parts.len() == pairs.len(),
        forall|i: int|
            0 <= i < parts.len() ==> #[trigger] parts[i] == parameter(pairs[i].0, pairs[i].1),
    ensures
        pairs_among(parts) == pairs,
    decreases parts.len(),
{
    if parts.len() > 0 {
        let a = parts.drop_last();
        let b = pairs.drop_last();
        assert forall|i: int| 0 <= i < a.len() implies #[trigger] a[i] == parameter(b[i].0, b[i].1) by {
            assert(parts[i] == parameter(pairs[i].0, pairs[i].1));
        }
        lemma_all_pairs(a, b);
        let n = parts.len() - 1;
        assert(parts[n] == parameter(pairs[n].0, pairs[n].1));
        lemma_parameter(pairs[n].0, pairs[n].1);
        assert(b.push(pairs[n]) =~= pairs);
    } else {
        assert(pairs_among(parts) =~= pairs);
    }
}

/// Whatever is asked can be asked: parameters that are written into a query are
/// read from it as they were, all of them, in order, whatever their texts hold.
pub proof fn a_query_reads_back(pairs: Seq<(Seq<char>, Seq<char>)>)
    ensures
        query_pairs(written_query(pairs)) == pairs,
{
    let parts = Seq::new(pairs.len(), |i: int| parameter(pairs[i].0, pairs[i].1));
    if pairs.len() == 0 {
        let q = written_query(pairs);
        assert(q =~= seq![]);
        lemma_find_char_is(q, '&', 0);
        assert(split(q, '&') =~= seq![q]);
        assert(seq![q].drop_last() =~= seq![]);
        assert(pairs_among(Seq::<Seq<char>>::empty()) =~= seq![]);
        assert(pairs =~= seq![]);
        assert(pairs_among(seq![q]) =~= pairs);
    } else {
        assert forall|k: int, i: int|
            0 <= k < parts.len() && 0 <= i < parts[k].len() implies #[trigger] parts[k][i] != '&' by {
            lemma_parameter(pairs[k].0, pairs[k].1);
        }
        crate::text::fields_read_back(parts, '&');
        lemma_all_pairs(parts, pairs);
    }
}

/// How a rule is written.
pub open spec fn rule_spelling(r: RuleView) -> Seq<char> {
    selector_spelling(r.selector) + seq!['='] + path_spelling(r.path)
}

/// Whether a rule can be written.
pub open spec fn rule_writable(r: RuleView) -> bool {
    &&& writable(r.selector)
    &&& nameable(r.path)
    &&& r.path.tunnel() matches Some(i) ==> forall|k: int|
        0 <= k < i.len() ==> #[trigger] i[k] != '='
}

/// The parameters that ask for a policy, and name who must keep working and what
/// must stay outside.
pub open spec fn asking_for(
    policy: PolicyView,
    admins: Seq<Seq<char>>,
    endpoints: Seq<Seq<char>>,
) -> Seq<(Seq<char>, Seq<char>)> {
    seq![("default"@, path_spelling(policy.default_path))] + Seq::new(
        policy.rules.len(),
        |i: int| ("rule"@, rule_spelling(policy.rules[i])),
    ) + Seq::new(admins.len(), |i: int| ("admin"@, admins[i])) + Seq::new(
        endpoints.len(),
        |i: int| ("endpoint"@, endpoints[i]),
    )
}

proof fn lemma_among_parts(a: Seq<PartView>, b: Seq<PartView>)
    ensures
        rules_among(a + b) == rules_among(a) + rules_among(b),
        admins_among(a + b) == admins_among(a) + admins_among(b),
        endpoints_among(a + b) == endpoints_among(a) + endpoints_among(b),
        malformed_among(a + b) == malformed_among(a) + malformed_among(b),
    decreases b.len(),
{
    if b.len() == 0 {
        assert(a + b =~= a);
        assert(rules_among(a) + rules_among(b) =~= rules_among(a));
        assert(admins_among(a) + admins_among(b) =~= admins_among(a));
        assert(endpoints_among(a) + endpoints_among(b) =~= endpoints_among(a));
        assert(malformed_among(a) + malformed_among(b) =~= malformed_among(a));
    } else {
        lemma_among_parts(a, b.drop_last());
        assert((a + b).drop_last() =~= a + b.drop_last());
        assert((a + b).last() == b.last());
        assert(rules_among(a + b) =~= rules_among(a) + rules_among(b));
        assert(admins_among(a + b) =~= admins_among(a) + admins_among(b));
        assert(endpoints_among(a + b) =~= endpoints_among(a) + endpoints_among(b));
        assert(malformed_among(a + b) =~= malformed_among(a) + malformed_among(b));
    }
}

proof fn lemma_default_stays(a: Seq<PartView>, b: Seq<PartView>)
    requires
        forall|i: int| 0 <= i < b.len() ==> !((#[trigger] b[i]) is Default),
    ensures
        default_among(a + b) == default_among(a),
    decreases b.len(),
{
    if b.len() == 0 {
        assert(a + b =~= a);
    } else {
        let t = b.drop_last();
        assert forall|i: int| 0 <= i < t.len() implies !((#[trigger] t[i]) is Default) by {
            assert(t[i] == b[i]);
        }
        lemma_default_stays(a, t);
        assert((a + b).drop_last() =~= a + t);
        assert((a + b).last() == b.last());
        assert(!(b[b.len() - 1] is Default));
    }
}

proof fn lemma_rule_parts(p: Seq<PartView>, rules: Seq<RuleView>)
    requires
        p.len() == rules.len(),
        forall|i: int| 0 <= i < p.len() ==> #[trigger] p[i] == PartView::Rule(rules[i]),
    ensures
        rules_among(p) == rules,
        admins_among(p).len() == 0,
        endpoints_among(p).len() == 0,
        malformed_among(p).len() == 0,
    decreases p.len(),
{
    if p.len() > 0 {
        let t = p.drop_last();
        let r = rules.drop_last();
        assert forall|i: int| 0 <= i < t.len() implies #[trigger] t[i] == PartView::Rule(r[i]) by {
            assert(p[i] == PartView::Rule(rules[i]));
        }
        lemma_rule_parts(t, r);
        assert(p[p.len() - 1] == PartView::Rule(rules[rules.len() - 1]));
        assert(r.push(rules.last()) =~= rules);
    } else {
        assert(rules_among(p) =~= rules);
    }
}

proof fn lemma_admin_parts(p: Seq<PartView>, names: Seq<Seq<char>>)
    requires
        p.len() == names.len(),
        forall|i: int| 0 <= i < p.len() ==> #[trigger] p[i] == PartView::Admin(names[i]),
    ensures
        admins_among(p) == names,
        rules_among(p).len() == 0,
        endpoints_among(p).len() == 0,
        malformed_among(p).len() == 0,
    decreases p.len(),
{
    if p.len() > 0 {
        let t = p.drop_last();
        let r = names.drop_last();
        assert forall|i: int| 0 <= i < t.len() implies #[trigger] t[i] == PartView::Admin(r[i]) by {
            assert(p[i] == PartView::Admin(names[i]));
        }
        lemma_admin_parts(t, r);
        assert(p[p.len() - 1] == PartView::Admin(names[names.len() - 1]));
        assert(r.push(names.last()) =~= names);
    } else {
        assert(admins_among(p) =~= names);
    }
}

proof fn lemma_endpoint_parts(p: Seq<PartView>, names: Seq<Seq<char>>)
    requires
        p.len() == names.len(),
        forall|i: int| 0 <= i < p.len() ==> #[trigger] p[i] == PartView::Endpoint(names[i]),
    ensures
        endpoints_among(p) == names,
        rules_among(p).len() == 0,
        admins_among(p).len() == 0,
        malformed_among(p).len() == 0,
    decreases p.len(),
{
    if p.len() > 0 {
        let t = p.drop_last();
        let r = names.drop_last();
        assert forall|i: int| 0 <= i < t.len() implies #[trigger] t[i] == PartView::Endpoint(r[i]) by {
            assert(p[i] == PartView::Endpoint(names[i]));
        }
        lemma_endpoint_parts(t, r);
        assert(p[p.len() - 1] == PartView::Endpoint(names[names.len() - 1]));
        assert(r.push(names.last()) =~= names);
    } else {
        assert(endpoints_among(p) =~= names);
    }
}

proof fn lemma_keys()
    ensures
        "default"@ != "rule"@,
        "default"@ != "admin"@,
        "default"@ != "endpoint"@,
        "rule"@ != "admin"@,
        "rule"@ != "endpoint"@,
        "admin"@ != "endpoint"@,
{
    reveal_strlit("default");
    reveal_strlit("rule");
    reveal_strlit("admin");
    reveal_strlit("endpoint");
    assert("default"@.len() == 7 && "rule"@.len() == 4 && "admin"@.len() == 5 && "endpoint"@.len()
        == 8);
}

/// A policy that is asked for in a query is the policy that is compiled: every
/// rule in its order, the path of everything else, everybody who must keep
/// working, and everything that must stay outside, and nothing is complained of.
pub proof fn a_policy_that_is_asked_for_is_compiled(
    policy: PolicyView,
    admins: Seq<Seq<char>>,
    endpoints: Seq<Seq<char>>,
    base: HostView,
)
    requires
        nameable(policy.default_path),
        forall|i: int| 0 <= i < policy.rules.len() ==> rule_writable(#[trigger] policy.rules[i]),
        forall|i: int| 0 <= i < admins.len() ==> (#[trigger] admins[i]).len() > 0,
        forall|i: int| 0 <= i < endpoints.len() ==> (#[trigger] endpoints[i]).len() > 0,
    ensures
        ({
            let parts = query_parts(written_query(asking_for(policy, admins, endpoints)));
            &&& policy_asked(parts) == policy
            &&& host_asked(parts, base).admin_peers == admins
            &&& host_asked(parts, base).tunnel_endpoints == base.tunnel_endpoints + endpoints
            &&& host_asked(parts, base).interfaces == base.interfaces
            &&& host_asked(parts, base).tor_uid == base.tor_uid
            &&& host_asked(parts, base).tor_trans_port == base.tor_trans_port
            &&& host_asked(parts, base).tor_dns_port == base.tor_dns_port
            &&& host_asked(parts, base).rp_filter == base.rp_filter
            &&& host_asked(parts, base).cgroups == base.cgroups
            &&& malformed_among(parts).len() == 0
        }),
{
    lemma_keys();
    let pairs = asking_for(policy, admins, endpoints);
    a_query_reads_back(pairs);
    let parts = parts_of(pairs);
    let n = policy.rules.len() as int;
    let m = admins.len() as int;
    let d = seq![PartView::Default(policy.default_path)];
    let r = Seq::new(policy.rules.len(), |i: int| PartView::Rule(policy.rules[i]));
    let a = Seq::new(admins.len(), |i: int| PartView::Admin(admins[i]));
    let e = Seq::new(endpoints.len(), |i: int| PartView::Endpoint(endpoints[i]));
    every_spelling_names_its_path_and_nothing_else_does(
        path_spelling(policy.default_path),
        policy.default_path,
    );
    assert forall|i: int| 0 <= i < parts.len() implies #[trigger] parts[i] == (d + r + a + e)[i] by {
        if i == 0 {
        } else if i < 1 + n {
            assert(pairs[i] == ("rule"@, rule_spelling(policy.rules[i - 1])));
            assert(rule_writable(policy.rules[i - 1]));
            a_rule_reads_back(policy.rules[i - 1]);
        } else if i < 1 + n + m {
            assert(pairs[i] == ("admin"@, admins[i - 1 - n]));
            assert(admins[i - 1 - n].len() > 0);
        } else {
            assert(pairs[i] == ("endpoint"@, endpoints[i - 1 - n - m]));
            assert(endpoints[i - 1 - n - m].len() > 0);
        }
    }
    assert(parts =~= d + r + a + e);
    lemma_among_parts(d, r);
    lemma_among_parts(d + r, a);
    lemma_among_parts(d + r + a, e);
    lemma_rule_parts(r, policy.rules);
    lemma_admin_parts(a, admins);
    lemma_endpoint_parts(e, endpoints);
    let none = Seq::<PartView>::empty();
    assert(d.drop_last() =~= none);
    assert(rules_among(none) =~= seq![]);
    assert(admins_among(none) =~= seq![]);
    assert(endpoints_among(none) =~= seq![]);
    assert(malformed_among(none) =~= seq![]);
    assert(rules_among(d) =~= seq![]);
    assert(admins_among(d) =~= seq![]);
    assert(endpoints_among(d) =~= seq![]);
    assert(malformed_among(d) =~= seq![]);
    assert(rules_among(parts) =~= policy.rules);
    assert(admins_among(parts) =~= admins);
    assert(endpoints_among(parts) =~= endpoints);
    assert(malformed_among(parts) =~= seq![]);
    lemma_default_stays(d, r);
    lemma_default_stays(d + r, a);
    lemma_default_stays(d + r + a, e);
    assert(default_among(d) == policy.default_path);
}

/// The last default that is asked for counts, and without one everything else is
/// left alone.
pub proof fn the_last_default_counts(parts: Seq<PartView>, p: PathView)
    ensures
        policy_asked(parts.push(PartView::Default(p))).default_path == p,
        policy_asked(parts.push(PartView::Default(p))).rules == policy_asked(parts).rules,
        policy_asked(seq![]).default_path is Direct,
{
    assert(parts.push(PartView::Default(p)).drop_last() =~= parts);
}

/// What does not read is complained of by its own kind and by its own text.
pub proof fn a_complaint_names_what_does_not_read(k: Seq<char>, v: Seq<char>)
    ensures
        k == "default"@ && path_named(v) is None ==> part_of(k, v) == PartView::Malformed(
            MalformedView::Path(v),
        ),
        k == "rule"@ && !v.contains('=') ==> part_of(k, v) == PartView::Malformed(
            MalformedView::Rule(v),
        ),
        (k == "admin"@ || k == "endpoint"@) && v.len() == 0 ==> part_of(k, v) is Other,
{
    lemma_keys();
    if k == "rule"@ && !v.contains('=') {
        lemma_rfind_char(v, '=');
        let i = rfind_char(v, '=');
        if i >= 0 {
            assert(v.contains(v[i]));
        }
    }
}

// ---------------------------------------------------------------------------
// What is answered
// ---------------------------------------------------------------------------

/// A plan is said to be applyable exactly where nothing is refused and nothing is
/// malformed, and every part of it stands under its own name.
pub proof fn an_answer_says_what_the_plan_is(
    plan: PlanView,
    refused: Seq<Seq<char>>,
    bad: Seq<Seq<char>>,
    command: Seq<char>,
)
    ensures
        ({
            let j = plan_object(plan, refused, bad, command);
            &&& member(j, "nft"@) == Some(Json::Text(plan.nft))
            &&& member(j, "ip"@) == Some(strings(plan.ip))
            &&& member(j, "torrc"@) == Some(strings(plan.torrc))
            &&& member(j, "notes"@) == Some(strings(plan.notes))
            &&& member(j, "refusals"@) == Some(strings(refused))
            &&& member(j, "malformed"@) == Some(strings(bad))
            &&& member(j, "applyable"@) == Some(Json::Truth(refused.len() + bad.len() == 0))
            &&& member(j, "revert"@) == Some(strings(plan.revert))
            &&& member(j, "command"@) == Some(Json::Text(command))
            &&& member(j, "marks"@) matches Some(Json::List(l)) && l.len() == plan.marks.len()
                && forall|i: int|
                0 <= i < l.len() ==> member(#[trigger] l[i], "path"@) == Some(
                    Json::Text(plan.marks[i].0),
                ) && member(l[i], "mark"@) == Some(
                    Json::Text("0x"@ + hex(plan.marks[i].1 as nat)),
                )
        }),
{
    reveal_strlit("nft");
    reveal_strlit("ip");
    reveal_strlit("torrc");
    reveal_strlit("notes");
    reveal_strlit("refusals");
    reveal_strlit("malformed");
    reveal_strlit("marks");
    reveal_strlit("applyable");
    reveal_strlit("revert");
    reveal_strlit("command");
    reveal_strlit("path");
    reveal_strlit("mark");
    assert("nft"@[1] == 'f' && "ip"@[0] == 'i' && "torrc"@[0] == 't' && "notes"@[1] == 'o');
    assert("nft"@[0] == 'n' && "notes"@[0] == 'n' && "refusals"@[2] == 'f' && "revert"@[2] == 'v');
    assert("refusals"@[0] == 'r' && "revert"@[0] == 'r' && "malformed"@[2] == 'l' && "marks"@[2]
        == 'r');
    assert("malformed"@[0] == 'm' && "marks"@[0] == 'm' && "applyable"@[0] == 'a' && "command"@[0]
        == 'c');
    assert("path"@[0] == 'p' && "mark"@[0] == 'm');
    let m = plan_object(plan, refused, bad, command)->Object_0;
    lemma_member(m, 0);
    lemma_member(m, 1);
    lemma_member(m, 2);
    lemma_member(m, 3);
    lemma_member(m, 4);
    lemma_member(m, 5);
    lemma_member(m, 6);
    lemma_member(m, 7);
    lemma_member(m, 8);
    lemma_member(m, 9);
    let l = mark_objects(plan.marks);
    assert forall|i: int| 0 <= i < l.len() implies member(#[trigger] l[i], "path"@) == Some(
        Json::Text(plan.marks[i].0),
    ) && member(l[i], "mark"@) == Some(Json::Text("0x"@ + hex(plan.marks[i].1 as nat))) by {
        let e = l[i]->Object_0;
        lemma_member(e, 0);
        lemma_member(e, 1);
    }
}

/// What is answered about a host is what is known of it, each under its own name,
/// and `null` where nothing is known.
pub proof fn an_answer_says_what_the_host_is(
    host: HostView,
    sessions: Seq<SessionView>,
    active: Seq<Seq<char>>,
)
    ensures
        ({
            let j = host_object(host, sessions, active);
            &&& member(j, "interfaces"@) == Some(strings(host.interfaces))
            &&& member(j, "cgroups"@) == Some(strings(host.cgroups))
            &&& member(j, "active"@) == Some(strings(active))
            &&& host.tor_trans_port matches Some(p) ==> member(j, "torTransPort"@) == Some(
                Json::Number(p as nat),
            )
            &&& host.tor_dns_port matches Some(p) ==> member(j, "torDnsPort"@) == Some(
                Json::Number(p as nat),
            )
            &&& host.tor_uid matches Some(u) ==> member(j, "torUid"@) == Some(
                Json::Number(u as nat),
            )
            &&& host.tor_trans_port is None ==> member(j, "torTransPort"@) == Some(Json::Null)
            &&& host.tor_dns_port is None ==> member(j, "torDnsPort"@) == Some(Json::Null)
            &&& host.tor_uid is None ==> member(j, "torUid"@) == Some(Json::Null)
            &&& member(j, "sessions"@) matches Some(Json::List(l)) && l.len() == sessions.len()
                && forall|i: int|
                0 <= i < l.len() ==> says_session(#[trigger] l[i], sessions[i])
        }),
{
    reveal_strlit("interfaces");
    reveal_strlit("cgroups");
    reveal_strlit("active");
    reveal_strlit("torTransPort");
    reveal_strlit("torDnsPort");
    reveal_strlit("torUid");
    reveal_strlit("sessions");
    assert("interfaces"@[0] == 'i' && "cgroups"@[0] == 'c' && "active"@[0] == 'a');
    assert("torTransPort"@[0] == 't' && "torTransPort"@[3] == 'T');
    assert("torDnsPort"@[0] == 't' && "torDnsPort"@[3] == 'D');
    assert("torUid"@[0] == 't' && "torUid"@[3] == 'U' && "sessions"@[0] == 's');
    let m = host_object(host, sessions, active)->Object_0;
    lemma_member(m, 0);
    lemma_member(m, 1);
    lemma_member(m, 2);
    lemma_member(m, 3);
    lemma_member(m, 4);
    lemma_member(m, 5);
    lemma_member(m, 6);
    let l = session_objects(sessions);
    assert forall|i: int| 0 <= i < l.len() implies says_session(#[trigger] l[i], sessions[i]) by {
        lemma_says_session(sessions[i]);
    }
}

/// Whether an object says of a session what it is.
pub open spec fn says_session(j: Json, s: SessionView) -> bool {
    &&& member(j, "peer"@) == Some(Json::Text(s.peer))
    &&& member(j, "port"@) == Some(Json::Number(s.port as nat))
    &&& member(j, "holder"@) == Some(Json::Text(s.holder))
    &&& member(j, "likely"@) == Some(Json::Truth(s.likely))
    &&& member(j, "evidence"@) == Some(Json::Text(s.evidence))
}

proof fn lemma_says_session(s: SessionView)
    ensures
        says_session(session_object(s), s),
{
    reveal_strlit("peer");
    reveal_strlit("port");
    reveal_strlit("holder");
    reveal_strlit("likely");
    reveal_strlit("evidence");
    assert("peer"@[0] == 'p' && "peer"@[1] == 'e' && "port"@[0] == 'p' && "port"@[1] == 'o');
    assert("holder"@[0] == 'h' && "likely"@[0] == 'l' && "evidence"@[0] == 'e');
    let m = session_object(s)->Object_0;
    lemma_member(m, 0);
    lemma_member(m, 1);
    lemma_member(m, 2);
    lemma_member(m, 3);
    lemma_member(m, 4);
}

/// A complaint shows what does not read, and says what it was taken for.
pub proof fn a_complaint_shows_its_subject(m: MalformedView, shown: Seq<char>)
    ensures
        contains(m.sentence(shown), shown),
        m is Path ==> m.sentence(shown) == "unknown path "@ + shown,
        m is Selector ==> m.sentence(shown) == "unknown selector "@ + shown,
        m matches MalformedView::Path(s) ==> m.subject() == s,
        m matches MalformedView::Selector(s) ==> m.subject() == s,
        m matches MalformedView::Rule(s) ==> m.subject() == s,
{
    match m {
        MalformedView::Path(_) => {
            lemma_inside("unknown path "@, shown, seq![]);
            assert("unknown path "@ + shown + seq![] =~= m.sentence(shown));
        },
        MalformedView::Selector(_) => {
            lemma_inside("unknown selector "@, shown, seq![]);
            assert("unknown selector "@ + shown + seq![] =~= m.sentence(shown));
        },
        MalformedView::Rule(_) => {
            lemma_inside("rule "@, shown, " is not <selector>=<path>"@);
        },
    }
}

/// A rule that does not read is complained of by the half that does not: by its
/// selector where that is no selector, and by its path where only that is none.
pub proof fn a_complaint_names_the_wrong_half(sel: Seq<char>, path: Seq<char>)
    requires
        forall|i: int| 0 <= i < path.len() ==> #[trigger] path[i] != '=',
    ensures
        selector_named(sel) is None ==> rule_named(sel + seq!['='] + path) == Err::<
            RuleView,
            MalformedView,
        >(MalformedView::Selector(sel)),
        selector_named(sel) is Some && path_named(path) is None ==> rule_named(
            sel + seq!['='] + path,
        ) == Err::<RuleView, MalformedView>(MalformedView::Path(path)),
{
    let v = sel + seq!['='] + path;
    let at = sel.len() as int;
    lemma_rfind_char(v, '=');
    let k = rfind_char(v, '=');
    assert(v[at] == '=');
    if k > at {
        assert(v[k] == path[k - at - 1]);
    }
    assert(k == at);
    assert(v.take(at) =~= sel);
    assert(v.skip(at + 1) =~= path);
}

/// Every refusal is explained, in its order.
pub proof fn every_refusal_is_explained(r: Seq<RefusalView>, i: int)
    requires
        0 <= i < r.len(),
    ensures
        explanations(r).len() == r.len(),
        explanations(r)[i] == r[i].sentence(debug_str(r[i].subject())),
        r[i] matches RefusalView::EmptySelector { selector } ==> r[i].subject() == selector,
        r[i] matches RefusalView::UnparseablePeer { peer } ==> r[i].subject() == peer,
{
}

/// A parameter without an equals sign is a name with nothing for a value, and where
/// nothing stands between two of them there is none.
pub proof fn a_parameter_may_have_no_value(k: Seq<char>, p: Seq<char>)
    requires
        k.len() > 0,
        forall|i: int| 0 <= i < p.len() ==> #[trigger] p[i] != '&',
    ensures
        pair_of(percent(encode_utf8(k))) == (k, Seq::<char>::empty()),
        query_pairs(p + seq!['&']) == query_pairs(p),
        query_pairs(seq!['&'] + p) == query_pairs(p),
{
    let e = percent(encode_utf8(k));
    assert forall|i: int| 0 <= i < e.len() implies #[trigger] e[i] != '=' by {
        lemma_percent_plain(encode_utf8(k), i);
    }
    lemma_find_char_is(e, '=', e.len() as int);
    an_escaped_text_decodes_to_itself(k);
    let none = Seq::<char>::empty();
    let empty = seq![none];
    crate::text::lemma_split_more(p, '&', none);
    assert(p + seq!['&'] + none =~= p + seq!['&']);
    lemma_find_char_is(p, '&', p.len() as int);
    assert(split(p, '&') =~= seq![p]);
    let two = split(p, '&').push(none);
    assert(two.drop_last() =~= split(p, '&'));
    lemma_find_char_is(none, '&', 0);
    assert(split(none, '&') =~= empty);
    crate::text::lemma_split_more(none, '&', p);
    assert(none + seq!['&'] + p =~= seq!['&'] + p);
    let front = empty.push(p);
    assert(front.drop_last() =~= empty);
    assert(empty.drop_last() =~= Seq::<Seq<char>>::empty());
    assert(seq![p].drop_last() =~= Seq::<Seq<char>>::empty());
    assert(pairs_among(Seq::<Seq<char>>::empty()) =~= seq![]);
    assert(pairs_among(empty) =~= seq![]);
}

} // verus!
