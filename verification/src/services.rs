//! Port names, taken from the machine rather than from a list of our own.
//!
//! Every Unix ships `/etc/services`, maintained by the distribution, so that
//! is the source. It is a hint and never an identity: it says what a port is
//! conventionally for, while the process holding the socket is the truth.

use vstd::prelude::*;
use vstd::string::*;

use crate::num::{dec, dec_reads_back, decimal, lemma_dec_digits, read_decimal};
use crate::text::{
    copy, fields, fields_read_back, find_char, head_field, is_whitespace, is_word, join,
    lemma_digits_are_a_word, lemma_find_char_is, lemma_one_word, lines, lines_of, opt_text, same,
    split, texts, words, words_of, words_of_two_parts,
};

verus! {

/// The transport half of an `/etc/services` entry.
#[derive(Debug, Clone, Copy, PartialEq, Eq, Hash, Structural)]
pub enum Proto {
    Tcp,
    Udp,
}

/// One name the system gives to a port.
#[derive(Debug)]
pub struct Entry {
    port: u16,
    proto: Proto,
    name: String,
}

/// What one entry says: the port, the transport, the name.
pub type EntryView = (u16, Proto, Seq<char>);

impl View for Entry {
    type V = EntryView;

    closed spec fn view(&self) -> EntryView {
        (self.port, self.proto, self.name@)
    }
}

impl Clone for Entry {
    fn clone(&self) -> (r: Self)
        ensures
            r@ == self@,
    {
        Entry { port: self.port, proto: self.proto, name: copy(self.name.as_str()) }
    }
}

/// Port and transport, and the name the system gives them.
#[derive(Debug)]
pub struct ServiceNames {
    by_port: Vec<Entry>,
}

/// What a list of entries says.
pub open spec fn entry_views(v: Seq<Entry>) -> Seq<EntryView> {
    Seq::new(v.len(), |i: int| v[i]@)
}

impl View for ServiceNames {
    type V = Seq<EntryView>;

    closed spec fn view(&self) -> Seq<EntryView> {
        entry_views(self.by_port@)
    }
}

impl Clone for ServiceNames {
    fn clone(&self) -> (r: Self)
        ensures
            r@ == self@,
    {
        let mut by_port: Vec<Entry> = Vec::new();
        let mut i: usize = 0;
        while i < self.by_port.len()
            invariant
                i <= self.by_port@.len(),
                entry_views(by_port@) =~= entry_views(self.by_port@).take(i as int),
            decreases self.by_port@.len() - i,
        {
            let ghost before = by_port@;
            by_port.push(self.by_port[i].clone());
            assert(entry_views(by_port@) =~= entry_views(before).push(self.by_port@[i as int]@));
            i += 1;
        }
        assert(entry_views(by_port@) =~= entry_views(self.by_port@));
        ServiceNames { by_port }
    }
}

/// The name a table gives to a port.
pub open spec fn lookup(t: Seq<EntryView>, port: u16, proto: Proto) -> Option<Seq<char>>
    decreases t.len(),
{
    if t.len() == 0 {
        None
    } else if t[0].0 == port && t[0].1 == proto {
        Some(t[0].2)
    } else {
        lookup(t.skip(1), port, proto)
    }
}

/// What one line of `/etc/services` says: `name port/proto`, with `#`
/// comments.
pub open spec fn entry_of(line: Seq<char>) -> Option<EntryView> {
    let w = words(line.take(find_char(line, '#')));
    if w.len() < 2 {
        None
    } else {
        let f = split(w[1], '/');
        if f.len() < 2 {
            None
        } else {
            match decimal(f[0], 65535) {
                Some(n) => if f[1] == "tcp"@ {
                    Some((n as u16, Proto::Tcp, w[0]))
                } else if f[1] == "udp"@ {
                    Some((n as u16, Proto::Udp, w[0]))
                } else {
                    None
                },
                None => None,
            }
        }
    }
}

/// The entries of a file's lines. The first entry for a port wins.
pub open spec fn table_of(ls: Seq<Seq<char>>) -> Seq<EntryView>
    decreases ls.len(),
{
    if ls.len() == 0 {
        seq![]
    } else {
        let t = table_of(ls.drop_last());
        match entry_of(ls.last()) {
            Some(e) if lookup(t, e.0, e.1) is None => t.push(e),
            _ => t,
        }
    }
}

fn read_entry(line: &str) -> (r: Option<Entry>)
    ensures
        match r {
            Some(e) => entry_of(line@) == Some(e@),
            None => entry_of(line@) is None,
        },
{
    let plain: String = head_field(line, '#');
    let w: Vec<String> = words_of(plain.as_str());
    assert(w@.len() == texts(w@).len());
    if w.len() < 2 {
        return None;
    }
    assert(texts(w@)[0] == w@[0]@ && texts(w@)[1] == w@[1]@);
    let f: Vec<String> = fields(w[1].as_str(), '/');
    assert(f@.len() == texts(f@).len());
    if f.len() < 2 {
        return None;
    }
    assert(texts(f@)[0] == f@[0]@ && texts(f@)[1] == f@[1]@);
    match read_decimal(f[0].as_str(), 65535) {
        Some(n) => {
            if same(f[1].as_str(), "tcp") {
                Some(Entry { port: n as u16, proto: Proto::Tcp, name: copy(w[0].as_str()) })
            } else if same(f[1].as_str(), "udp") {
                Some(Entry { port: n as u16, proto: Proto::Udp, name: copy(w[0].as_str()) })
            } else {
                None
            }
        },
        None => None,
    }
}

impl Default for ServiceNames {
    /// The table of a host without an `/etc/services`.
    fn default() -> (r: Self)
        ensures
            r@ == Seq::<EntryView>::empty(),
    {
        let t: ServiceNames = ServiceNames { by_port: Vec::new() };
        assert(t@ =~= Seq::<EntryView>::empty());
        t
    }
}

impl ServiceNames {
    /// The table that the contents of a services file give. `None` stands for
    /// a file that could not be read and yields an empty table: a name is a
    /// nicety, and a host without `/etc/services` must still work.
    pub fn load(text: Option<&str>) -> (r: Self)
        ensures
            r@ == (match opt_text(text) {
                Some(t) => table_of(lines(t)),
                None => seq![],
            }),
    {
        match text {
            Some(t) => Self::parse(t),
            None => Self::default(),
        }
    }

    /// Parse `/etc/services` text.
    ///
    /// The first entry for a port wins: the canonical name is the first field
    /// on the first line, and later lines are aliases of it.
    pub fn parse(text: &str) -> (r: Self)
        ensures
            r@ == table_of(lines(text@)),
    {
        let ls: Vec<String> = lines_of(text);
        let ghost all = texts(ls@);
        let mut t: ServiceNames = Self::default();
        let mut i: usize = 0;
        assert(all.take(0) =~= Seq::<Seq<char>>::empty());
        while i < ls.len()
            invariant
                i <= ls@.len(),
                all == texts(ls@),
                t@ == table_of(all.take(i as int)),
            decreases ls@.len() - i,
        {
            assert(all.take(i + 1).drop_last() =~= all.take(i as int));
            assert(all.take(i + 1).last() == ls@[i as int]@);
            if let Some(e) = read_entry(ls[i].as_str()) {
                if t.name(e.port, e.proto).is_none() {
                    let ghost before = t@;
                    t.by_port.push(e);
                    assert(t@ =~= before.push(e@));
                }
            }
            i += 1;
        }
        assert(all.take(i as int) =~= all);
        t
    }

    /// The system's name for a port, if it has one.
    pub fn name(&self, port: u16, proto: Proto) -> (r: Option<&str>)
        ensures
            opt_text(r) == lookup(self@, port, proto),
    {
        let mut i: usize = 0;
        assert(self@.skip(0) =~= self@);
        while i < self.by_port.len()
            invariant
                i <= self.by_port@.len(),
                lookup(self@, port, proto) == lookup(self@.skip(i as int), port, proto),
            decreases self.by_port@.len() - i,
        {
            assert(self@.skip(i as int)[0] == self.by_port@[i as int]@);
            if self.by_port[i].port == port && self.by_port[i].proto == proto {
                return Some(self.by_port[i].name.as_str());
            }
            assert(self@.skip(i as int).skip(1) =~= self@.skip(i + 1));
            i += 1;
        }
        None
    }

    /// How many ports have a name.
    pub fn len(&self) -> (r: usize)
        ensures
            r == self@.len(),
    {
        self.by_port.len()
    }

    /// Whether no port has a name.
    pub fn is_empty(&self) -> (r: bool)
        ensures
            r == (self@.len() == 0),
    {
        self.by_port.len() == 0
    }
}

/// Looking up finds the first entry for a port, and finds none only where
/// there is none.
pub proof fn lemma_lookup(t: Seq<EntryView>, port: u16, proto: Proto)
    ensures
        lookup(t, port, proto) is None <==> forall|i: int|
            0 <= i < t.len() ==> !((#[trigger] t[i]).0 == port && t[i].1 == proto),
    decreases t.len(),
{
    if t.len() > 0 && !(t[0].0 == port && t[0].1 == proto) {
        let r = t.skip(1);
        lemma_lookup(r, port, proto);
        if lookup(t, port, proto) is None {
            assert forall|i: int| 0 <= i < t.len() implies !((#[trigger] t[i]).0 == port && t[i].1
                == proto) by {
                if i > 0 {
                    assert(r[i - 1] == t[i]);
                }
            }
        } else {
            if forall|i: int| 0 <= i < t.len() ==> !((#[trigger] t[i]).0 == port && t[i].1 == proto)
            {
                assert forall|i: int| 0 <= i < r.len() implies !((#[trigger] r[i]).0 == port
                    && r[i].1 == proto) by {
                    assert(t[i + 1] == r[i]);
                }
            }
        }
    }
}

proof fn lemma_lookup_push(t: Seq<EntryView>, e: EntryView, port: u16, proto: Proto)
    ensures
        lookup(t.push(e), port, proto) == (match lookup(t, port, proto) {
            Some(n) => Some(n),
            None => if e.0 == port && e.1 == proto {
                Some(e.2)
            } else {
                None
            },
        }),
    decreases t.len(),
{
    let u = t.push(e);
    if t.len() == 0 {
        assert(u.skip(1) =~= Seq::<EntryView>::empty());
        assert(lookup(u.skip(1), port, proto) is None);
    } else {
        lemma_lookup_push(t.skip(1), e, port, proto);
        assert(u.skip(1) =~= t.skip(1).push(e));
    }
}

/// A table has no two names for one port and transport.
pub proof fn a_port_has_one_name(ls: Seq<Seq<char>>)
    ensures
        forall|i: int, j: int|
            0 <= i < j < table_of(ls).len() ==> !((#[trigger] table_of(ls)[i]).0 == (
            #[trigger] table_of(ls)[j]).0 && table_of(ls)[i].1 == table_of(ls)[j].1),
    decreases ls.len(),
{
    if ls.len() > 0 {
        let t = table_of(ls.drop_last());
        a_port_has_one_name(ls.drop_last());
        match entry_of(ls.last()) {
            Some(e) => {
                lemma_lookup(t, e.0, e.1);
            },
            None => {},
        }
    }
}

/// A later line never displaces the name an earlier one gave: once a port has
/// a name it keeps it, whatever lines follow.
pub proof fn an_earlier_name_stands(ls: Seq<Seq<char>>, more: Seq<Seq<char>>, port: u16, proto: Proto)
    requires
        lookup(table_of(ls), port, proto) is Some,
    ensures
        lookup(table_of(ls + more), port, proto) == lookup(table_of(ls), port, proto),
    decreases more.len(),
{
    if more.len() == 0 {
        assert(ls + more =~= ls);
    } else {
        let all = ls + more;
        assert(all.drop_last() =~= ls + more.drop_last());
        assert(all.last() == more.last());
        an_earlier_name_stands(ls, more.drop_last(), port, proto);
        let t = table_of(all.drop_last());
        match entry_of(all.last()) {
            Some(e) => {
                lemma_lookup_push(t, e, port, proto);
            },
            None => {},
        }
    }
}

/// A line that names no port changes nothing.
pub proof fn a_junk_line_changes_nothing(before: Seq<Seq<char>>, junk: Seq<char>, after: Seq<Seq<char>>)
    requires
        entry_of(junk) is None,
    ensures
        table_of(before.push(junk) + after) == table_of(before + after),
    decreases after.len(),
{
    let with = before.push(junk) + after;
    let without = before + after;
    if after.len() == 0 {
        assert(with =~= before.push(junk));
        assert(with.drop_last() =~= before);
        assert(without =~= before);
    } else {
        a_junk_line_changes_nothing(before, junk, after.drop_last());
        assert(with.drop_last() =~= before.push(junk) + after.drop_last());
        assert(without.drop_last() =~= before + after.drop_last());
        assert(with.last() == without.last());
    }
}

/// Whether a text holds no comment.
pub open spec fn plain(s: Seq<char>) -> bool {
    !s.contains('#')
}

/// What stands behind a `#` is no part of an entry.
pub proof fn a_comment_says_nothing(s: Seq<char>, comment: Seq<char>)
    requires
        plain(s),
    ensures
        entry_of(s + seq!['#'] + comment) == entry_of(s),
{
    let l = s + seq!['#'] + comment;
    assert forall|j: int| 0 <= j < s.len() implies #[trigger] s[j] != '#' by {
        assert(s.contains(s[j]));
    }
    assert forall|j: int| 0 <= j < s.len() implies #[trigger] l[j] != '#' by {
        assert(l[j] == s[j]);
    }
    lemma_find_char_is(l, '#', s.len() as int);
    lemma_find_char_is(s, '#', s.len() as int);
    assert(l.take(s.len() as int) =~= s);
    assert(s.take(s.len() as int) =~= s);
}

/// A line gives its first word as the name of the port and the transport of its
/// second, whatever aliases stand behind.
pub proof fn a_line_names_its_port(
    name: Seq<char>,
    port: u16,
    proto: Proto,
    space: char,
    aliases: Seq<char>,
)
    requires
        is_word(name),
        plain(name),
        plain(aliases),
        is_whitespace(space),
        space != '#',
    ensures
        ({
            let carrier = match proto {
                Proto::Tcp => "tcp"@,
                Proto::Udp => "udp"@,
            };
            let front = name + seq![space] + (dec(port as nat) + seq!['/'] + carrier);
            &&& entry_of(front) == Some((port, proto, name))
            &&& entry_of(front + seq![' '] + aliases) == Some((port, proto, name))
        }),
{
    let carrier = match proto {
        Proto::Tcp => "tcp"@,
        Proto::Udp => "udp"@,
    };
    reveal_strlit("tcp");
    reveal_strlit("udp");
    let number = dec(port as nat);
    let second = number + seq!['/'] + carrier;
    let front = name + seq![space] + second;
    let line = front + seq![' '] + aliases;
    lemma_dec_digits(port as nat);
    assert forall|i: int| 0 <= i < second.len() implies '!' <= #[trigger] second[i] <= '~' && second[i]
        != '#' by {
        if i < number.len() {
            assert(second[i] == number[i]);
        } else if i > number.len() {
            assert(second[i] == carrier[i - number.len() - 1]);
        }
    }
    lemma_digits_are_a_word(second);
    lemma_one_word(name);
    lemma_one_word(second);
    words_of_two_parts(name, space, second);
    words_of_two_parts(front, ' ', aliases);
    assert(words(front) =~= seq![name, second]);
    assert(words(line)[0] == name && words(line)[1] == second);
    assert forall|j: int| 0 <= j < line.len() implies #[trigger] line[j] != '#' by {
        if j < name.len() {
            assert(line[j] == name[j]);
            assert(name.contains(name[j]));
        } else if name.len() < j < front.len() {
            assert(line[j] == second[j - name.len() - 1]);
        } else if j > front.len() {
            assert(line[j] == aliases[j - front.len() - 1]);
            assert(aliases.contains(aliases[j - front.len() - 1]));
        }
    }
    assert forall|j: int| 0 <= j < front.len() implies #[trigger] front[j] != '#' by {
        assert(front[j] == line[j]);
    }
    lemma_find_char_is(line, '#', line.len() as int);
    lemma_find_char_is(front, '#', front.len() as int);
    assert(line.take(line.len() as int) =~= line);
    assert(front.take(front.len() as int) =~= front);
    let v = seq![number, carrier];
    assert forall|k: int, i: int| 0 <= k < v.len() && 0 <= i < v[k].len() implies #[trigger] v[k][i]
        != '/' by {
        if k == 0 {
            assert('0' <= number[i] <= '9');
        }
    }
    fields_read_back(v, '/');
    assert(v.drop_last() =~= seq![number]);
    assert(join(v.drop_last(), seq!['/']) == number);
    assert(join(v, seq!['/']) =~= second);
    dec_reads_back(port as nat, 65535);
    assert("tcp"@[0] == 't' && "udp"@[0] == 'u');
}

/// The first line that names a port gives it its name; a port that no line names
/// has none.
pub proof fn a_port_is_called_by_the_first_line_for_it(
    ls: Seq<Seq<char>>,
    line: Seq<char>,
    port: u16,
    proto: Proto,
)
    ensures
        lookup(table_of(seq![]), port, proto) is None,
        lookup(table_of(ls), port, proto) is Some ==> lookup(table_of(ls.push(line)), port, proto)
            == lookup(table_of(ls), port, proto),
        lookup(table_of(ls), port, proto) is None ==> lookup(table_of(ls.push(line)), port, proto)
            == (match entry_of(line) {
            Some(e) if e.0 == port && e.1 == proto => Some(e.2),
            _ => None,
        }),
{
    let all = ls.push(line);
    assert(all.drop_last() =~= ls);
    if let Some(e) = entry_of(line) {
        lemma_lookup_push(table_of(ls), e, port, proto);
    }
}

} // verus!
