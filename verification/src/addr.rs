//! Internet addresses: what they are, how they are written, how they are read.

use vstd::prelude::*;
use vstd::string::*;

use crate::num::{
    dec, digit, digits_value, hex, hex_digit, lemma_dec_digits, lemma_hex_digits, push_dec, push_hex,
};
use crate::text::{
    chars_of, fields, fields_make_up_their_text, fields_read_back, find, has_at, join, joined, lemma_find_char,
    lemma_find_char_is, lemma_find_from, piece, position, split, starts_with, texts,
};

verus! {

/// An internet address: the four octets of an IPv4 one, or the eight
/// sixteen-bit groups of an IPv6 one.
#[derive(Debug, Clone, Copy, PartialEq, Eq, Structural)]
pub enum IpAddr {
    V4(u8, u8, u8, u8),
    V6(u16, u16, u16, u16, u16, u16, u16, u16),
}

// ---------------------------------------------------------------------------
// Writing
// ---------------------------------------------------------------------------

/// The dotted spelling of four octets.
pub open spec fn dotted(a: u8, b: u8, c: u8, d: u8) -> Seq<char> {
    dec(a as nat) + "."@ + dec(b as nat) + "."@ + dec(c as nat) + "."@ + dec(d as nat)
}

/// How many zero groups stand in a row from position `i` on.
pub open spec fn zero_run(s: Seq<u16>, i: int) -> nat
    decreases s.len() - i,
{
    if 0 <= i < s.len() && s[i] == 0 {
        1 + zero_run(s, i + 1)
    } else {
        0
    }
}

/// The first of the positions before `n` where the longest row of zero groups
/// begins.
pub open spec fn longest_zeros(s: Seq<u16>, n: nat) -> int
    decreases n,
{
    if n == 0 {
        0
    } else {
        let b = longest_zeros(s, (n - 1) as nat);
        if zero_run(s, n - 1) > zero_run(s, b) {
            n - 1
        } else {
            b
        }
    }
}

/// The hexadecimal spelling of each group.
pub open spec fn hex_texts(s: Seq<u16>) -> Seq<Seq<char>> {
    Seq::new(s.len(), |i: int| hex(s[i] as nat))
}

/// Groups with colons between them.
pub open spec fn colons(s: Seq<u16>) -> Seq<char> {
    join(hex_texts(s), ":"@)
}

/// The spelling of eight groups: the first of the longest rows of two or more
/// zero groups is written `::`.
pub open spec fn grouped(s: Seq<u16>) -> Seq<char> {
    let b = longest_zeros(s, s.len());
    let n = zero_run(s, b);
    if n > 1 {
        colons(s.take(b)) + "::"@ + colons(s.skip(b + n))
    } else {
        colons(s)
    }
}

impl IpAddr {
    /// The IPv4 address that an IPv6 one of the form `::ffff:a.b.c.d` stands
    /// for.
    pub open spec fn mapped(self) -> Option<IpAddr> {
        match self {
            IpAddr::V6(0, 0, 0, 0, 0, 0xffff, g, h) => Some(
                IpAddr::V4((g / 256) as u8, (g % 256) as u8, (h / 256) as u8, (h % 256) as u8),
            ),
            _ => None,
        }
    }

    /// The groups of an IPv6 address.
    pub open spec fn groups(self) -> Seq<u16> {
        match self {
            IpAddr::V6(a, b, c, d, e, f, g, h) => seq![a, b, c, d, e, f, g, h],
            IpAddr::V4(..) => seq![],
        }
    }

    /// The usual spelling of an address.
    pub open spec fn spelling(self) -> Seq<char> {
        match self {
            IpAddr::V4(a, b, c, d) => dotted(a, b, c, d),
            IpAddr::V6(..) => match self.mapped() {
                Some(IpAddr::V4(a, b, c, d)) => "::ffff:"@ + dotted(a, b, c, d),
                _ => grouped(self.groups()),
            },
        }
    }

    /// The address that stands for no address.
    pub open spec fn unspecified(self) -> bool {
        ||| self == IpAddr::V4(0, 0, 0, 0)
        ||| self == IpAddr::V6(0, 0, 0, 0, 0, 0, 0, 0)
    }

    /// An address that never leaves the machine.
    pub open spec fn loopback(self) -> bool {
        match self {
            IpAddr::V4(a, ..) => a == 127,
            IpAddr::V6(..) => self == IpAddr::V6(0, 0, 0, 0, 0, 0, 0, 1),
        }
    }

    /// An IPv4-mapped address as the IPv4 one it stands for, and any other as
    /// itself.
    pub open spec fn flat(self) -> IpAddr {
        match self.mapped() {
            Some(a) => a,
            None => self,
        }
    }

    pub fn to_ipv4_mapped(&self) -> (r: Option<IpAddr>)
        ensures
            r == self.mapped(),
    {
        match *self {
            IpAddr::V6(0, 0, 0, 0, 0, 0xffff, g, h) => Some(
                IpAddr::V4((g / 256) as u8, (g % 256) as u8, (h / 256) as u8, (h % 256) as u8),
            ),
            _ => None,
        }
    }

    pub fn is_unspecified(&self) -> (r: bool)
        ensures
            r == self.unspecified(),
    {
        match *self {
            IpAddr::V4(a, b, c, d) => a == 0 && b == 0 && c == 0 && d == 0,
            IpAddr::V6(a, b, c, d, e, f, g, h) => a == 0 && b == 0 && c == 0 && d == 0 && e == 0
                && f == 0 && g == 0 && h == 0,
        }
    }

    pub fn is_loopback(&self) -> (r: bool)
        ensures
            r == self.loopback(),
    {
        match *self {
            IpAddr::V4(a, ..) => a == 127,
            IpAddr::V6(a, b, c, d, e, f, g, h) => a == 0 && b == 0 && c == 0 && d == 0 && e == 0
                && f == 0 && g == 0 && h == 1,
        }
    }

    pub fn flattened(&self) -> (r: IpAddr)
        ensures
            r == self.flat(),
    {
        match self.to_ipv4_mapped() {
            Some(a) => a,
            None => *self,
        }
    }

    /// The usual spelling of an address.
    pub fn to_text(&self) -> (r: String)
        ensures
            r@ == self.spelling(),
    {
        match *self {
            IpAddr::V4(a, b, c, d) => dotted_text(a, b, c, d),
            IpAddr::V6(a, b, c, d, e, f, g, h) => {
                if let Some(IpAddr::V4(p, q, r, s)) = self.to_ipv4_mapped() {
                    let mut t: String = String::from_str("::ffff:");
                    t.append(dotted_text(p, q, r, s).as_str());
                    return t;
                }
                let v: Vec<u16> = vec![a, b, c, d, e, f, g, h];
                assert(v@ =~= self.groups());
                grouped_text(&v)
            },
        }
    }
}

fn dotted_text(a: u8, b: u8, c: u8, d: u8) -> (r: String)
    ensures
        r@ == dotted(a, b, c, d),
{
    let mut s: String = crate::num::dec_of(a as u64);
    s.append(".");
    push_dec(&mut s, b as u64);
    s.append(".");
    push_dec(&mut s, c as u64);
    s.append(".");
    push_dec(&mut s, d as u64);
    s
}

fn zeros_from(v: &Vec<u16>, i: usize) -> (r: usize)
    ensures
        r == zero_run(v@, i as int),
        r > 0 ==> i + r <= v@.len(),
    decreases v@.len() - i,
{
    if i < v.len() && v[i] == 0 {
        1 + zeros_from(v, i + 1)
    } else {
        0
    }
}

fn colons_text(v: &Vec<u16>, from: usize, to: usize) -> (r: String)
    requires
        from <= to <= v@.len(),
    ensures
        r@ == colons(v@.subrange(from as int, to as int)),
{
    let mut parts: Vec<String> = Vec::new();
    let mut i: usize = from;
    while i < to
        invariant
            from <= i <= to <= v@.len(),
            texts(parts@) =~= hex_texts(v@.subrange(from as int, i as int)),
        decreases to - i,
    {
        let mut s: String = String::new();
        push_hex(&mut s, v[i] as u64);
        assert(s@ =~= hex(v@[i as int] as nat));
        let ghost before = parts@;
        parts.push(s);
        proof {
            crate::text::lemma_texts_push(before, s);
            assert(v@.subrange(from as int, i + 1) =~= v@.subrange(from as int, i as int).push(
                v@[i as int],
            ));
        }
        i += 1;
    }
    joined(&parts, ":")
}

fn grouped_text(v: &Vec<u16>) -> (r: String)
    requires
        v@.len() == 8,
    ensures
        r@ == grouped(v@),
{
    let mut best: usize = 0;
    let mut run: usize = zeros_from(v, 0);
    let mut n: usize = 0;
    while n < 8
        invariant
            n <= 8,
            v@.len() == 8,
            best < 8,
            best == longest_zeros(v@, n as nat),
            run == zero_run(v@, best as int),
            run > 0 ==> best + run <= 8,
        decreases 8 - n,
    {
        let here: usize = zeros_from(v, n);
        if here > run {
            best = n;
            run = here;
        }
        n += 1;
    }
    if run > 1 {
        assert(v@.take(best as int) =~= v@.subrange(0, best as int));
        assert(v@.skip(best + run) =~= v@.subrange(best + run, 8));
        let mut s: String = colons_text(v, 0, best);
        s.append("::");
        s.append(colons_text(v, best + run, 8).as_str());
        s
    } else {
        assert(v@ =~= v@.subrange(0, 8));
        colons_text(v, 0, 8)
    }
}

// ---------------------------------------------------------------------------
// Reading
// ---------------------------------------------------------------------------

/// One octet of a dotted address: one to three digits, no leading zero, at
/// most 255.
pub open spec fn octet(s: Seq<char>) -> Option<u8> {
    match digits_value(s, 10) {
        Some(n) if 1 <= s.len() <= 3 && (s.len() == 1 || s[0] != '0') && n <= 255 => Some(n as u8),
        _ => None,
    }
}

/// A dotted address.
pub open spec fn read_v4(s: Seq<char>) -> Option<(u8, u8, u8, u8)> {
    let p = split(s, '.');
    if p.len() == 4 {
        match (octet(p[0]), octet(p[1]), octet(p[2]), octet(p[3])) {
            (Some(a), Some(b), Some(c), Some(d)) => Some((a, b, c, d)),
            _ => None,
        }
    } else {
        None
    }
}

/// One group: one to four hexadecimal digits.
pub open spec fn hextet(s: Seq<char>) -> Option<u16> {
    match digits_value(s, 16) {
        Some(n) if 1 <= s.len() <= 4 => Some(n as u16),
        _ => None,
    }
}

/// Groups, each spelled by itself.
pub open spec fn read_hextets(p: Seq<Seq<char>>) -> Option<Seq<u16>>
    decreases p.len(),
{
    if p.len() == 0 {
        Some(seq![])
    } else {
        match (read_hextets(p.drop_last()), hextet(p.last())) {
            (Some(v), Some(g)) => Some(v.push(g)),
            _ => None,
        }
    }
}

/// A row of groups with colons between them. Where `dotted_end` allows it the
/// last two groups may be spelled as a dotted address.
pub open spec fn read_groups(s: Seq<char>, dotted_end: bool) -> Option<Seq<u16>> {
    if s.len() == 0 {
        Some(seq![])
    } else {
        let p = split(s, ':');
        match (read_hextets(p.drop_last()), read_v4(p.last())) {
            (Some(v), Some((a, b, c, d))) if dotted_end => Some(
                v.push((a * 256 + b) as u16).push((c * 256 + d) as u16),
            ),
            _ => read_hextets(p),
        }
    }
}

/// An IPv6 address: eight groups, or fewer with `::` once in place of the
/// zero groups that are left out.
pub open spec fn read_v6(s: Seq<char>) -> Option<Seq<u16>> {
    match find(s, "::"@) {
        Some(i) => match (read_groups(s.take(i), false), read_groups(s.skip(i + 2), true)) {
            (Some(h), Some(t)) if h.len() + t.len() <= 7 => Some(
                h + Seq::new((8 - h.len() - t.len()) as nat, |k: int| 0u16) + t,
            ),
            _ => None,
        },
        None => match read_groups(s, true) {
            Some(v) if v.len() == 8 => Some(v),
            _ => None,
        },
    }
}

/// The address that a text spells.
pub open spec fn read_addr(s: Seq<char>) -> Option<IpAddr> {
    match read_v4(s) {
        Some((a, b, c, d)) => Some(IpAddr::V4(a, b, c, d)),
        None => match read_v6(s) {
            Some(v) => Some(IpAddr::V6(v[0], v[1], v[2], v[3], v[4], v[5], v[6], v[7])),
            None => None,
        },
    }
}

/// The value of a short row of digits.
fn short_number(s: &str, radix: u32, most: usize) -> (r: Option<u32>)
    requires
        radix == 10 || radix == 16,
        most <= 4,
    ensures
        match r {
            Some(n) => 1 <= s@.len() <= most && digits_value(s@, radix as nat) == Some(n as nat)
                && (radix == 16 ==> n < 65536),
            None => !(1 <= s@.len() <= most && digits_value(s@, radix as nat) is Some),
        },
{
    let v: Vec<char> = chars_of(s);
    if v.len() == 0 || v.len() > most {
        return None;
    }
    let mut n: u32 = 0;
    let mut i: usize = 0;
    assert(v@.take(0) =~= Seq::<char>::empty());
    while i < v.len()
        invariant
            i <= v@.len() <= 4,
            v@ == s@,
            radix == 10 || radix == 16,
            digits_value(v@.take(i as int), radix as nat) == Some(n as nat),
            i == 0 ==> n == 0,
            i == 1 ==> n < 16,
            i == 2 ==> n < 256,
            i == 3 ==> n < 4096,
            i == 4 ==> n < 65536,
        decreases v@.len() - i,
    {
        assert(v@.take(i + 1).drop_last() =~= v@.take(i as int));
        match digit(v[i], radix) {
            Some(d) => {
                n = if radix == 10 {
                    n * 10 + d
                } else {
                    n * 16 + d
                };
            },
            None => {
                proof {
                    lemma_digits_fail(v@, radix as nat, i + 1);
                }
                return None;
            },
        }
        i += 1;
    }
    assert(v@.take(i as int) =~= v@);
    Some(n)
}

/// A row of digits has a value only where each beginning of it has one.
proof fn lemma_digits_fail(s: Seq<char>, radix: nat, i: int)
    requires
        0 <= i <= s.len(),
        digits_value(s.take(i), radix) is None,
    ensures
        digits_value(s, radix) is None,
    decreases s.len(),
{
    if i == s.len() {
        assert(s.take(i) =~= s);
    } else {
        assert(s.drop_last().take(i) =~= s.take(i));
        lemma_digits_fail(s.drop_last(), radix, i);
    }
}

fn octet_of(s: &str) -> (r: Option<u8>)
    ensures
        r == octet(s@),
{
    match short_number(s, 10, 3) {
        Some(n) => {
            let v: Vec<char> = chars_of(s);
            if n <= 255 && (v.len() == 1 || v[0] != '0') {
                Some(n as u8)
            } else {
                None
            }
        },
        None => None,
    }
}

pub(crate) fn v4_of(s: &str) -> (r: Option<(u8, u8, u8, u8)>)
    ensures
        r == read_v4(s@),
{
    let p: Vec<String> = fields(s, '.');
    assert(p@.len() == texts(p@).len());
    if p.len() != 4 {
        return None;
    }
    assert(texts(p@)[0] == p@[0]@ && texts(p@)[1] == p@[1]@ && texts(p@)[2] == p@[2]@ && texts(p@)[3]
        == p@[3]@);
    match (
        octet_of(p[0].as_str()),
        octet_of(p[1].as_str()),
        octet_of(p[2].as_str()),
        octet_of(p[3].as_str()),
    ) {
        (Some(a), Some(b), Some(c), Some(d)) => Some((a, b, c, d)),
        _ => None,
    }
}

/// The groups spelled by the first `n` fields.
fn hextets_of(p: &Vec<String>, n: usize) -> (r: Option<Vec<u16>>)
    requires
        n <= p@.len(),
    ensures
        match r {
            Some(v) => read_hextets(texts(p@).take(n as int)) == Some(v@),
            None => read_hextets(texts(p@).take(n as int)) is None,
        },
    decreases n,
{
    if n == 0 {
        let v: Vec<u16> = Vec::new();
        assert(v@ =~= seq![]);
        return Some(v);
    }
    let ghost q = texts(p@).take(n as int);
    assert(q.drop_last() =~= texts(p@).take(n - 1));
    assert(q.last() == p@[n - 1]@);
    match hextets_of(p, n - 1) {
        Some(mut v) => match short_number(p[n - 1].as_str(), 16, 4) {
            Some(g) => {
                v.push(g as u16);
                Some(v)
            },
            None => None,
        },
        None => None,
    }
}

fn groups_of(s: &str, dotted_end: bool) -> (r: Option<Vec<u16>>)
    ensures
        match r {
            Some(v) => read_groups(s@, dotted_end) == Some(v@),
            None => read_groups(s@, dotted_end) is None,
        },
{
    if s.is_empty() {
        let v: Vec<u16> = Vec::new();
        assert(v@ =~= seq![]);
        return Some(v);
    }
    let p: Vec<String> = fields(s, ':');
    let n: usize = p.len();
    proof {
        lemma_find_char(s@, ':');
        assert(split(s@, ':').len() >= 1);
    }
    let ghost q = texts(p@);
    assert(q.len() == n);
    if dotted_end {
        assert(q.last() == p@[n - 1]@);
        if let Some((a, b, c, d)) = v4_of(p[n - 1].as_str()) {
            assert(q.drop_last() =~= q.take(n - 1));
            if let Some(mut v) = hextets_of(&p, n - 1) {
                v.push(a as u16 * 256 + b as u16);
                v.push(c as u16 * 256 + d as u16);
                return Some(v);
            }
        }
    }
    assert(q.take(n as int) =~= q);
    hextets_of(&p, n)
}

fn v6_of(s: &str) -> (r: Option<Vec<u16>>)
    ensures
        match r {
            Some(v) => read_v6(s@) == Some(v@) && v@.len() == 8,
            None => read_v6(s@) is None,
        },
{
    match position(s, "::") {
        Some(i) => {
            let v: Vec<char> = chars_of(s);
            proof {
                reveal_strlit("::");
                lemma_find_from(s@, "::"@, 0);
            }
            assert(v@.take(i as int) =~= v@.subrange(0, i as int));
            assert(v@.skip(i + 2) =~= v@.subrange(i + 2, v@.len() as int));
            match (
                groups_of(piece(&v, 0, i).as_str(), false),
                groups_of(piece(&v, i + 2, v.len()).as_str(), true),
            ) {
                (Some(mut h), Some(mut t)) => {
                    if h.len() > 7 || t.len() > 7 - h.len() {
                        return None;
                    }
                    let ghost head = h@;
                    let ghost tail = t@;
                    let gap: usize = 8 - h.len() - t.len();
                    let mut k: usize = 0;
                    while k < gap
                        invariant
                            k <= gap,
                            h@ =~= head + Seq::new(k as nat, |j: int| 0u16),
                        decreases gap - k,
                    {
                        h.push(0);
                        k += 1;
                    }
                    h.append(&mut t);
                    Some(h)
                },
                _ => None,
            }
        },
        None => match groups_of(s, true) {
            Some(v) => {
                if v.len() == 8 {
                    Some(v)
                } else {
                    None
                }
            },
            None => None,
        },
    }
}

impl IpAddr {
    /// Read an address from its spelling.
    pub fn parse(s: &str) -> (r: Option<IpAddr>)
        ensures
            r == read_addr(s@),
    {
        match v4_of(s) {
            Some((a, b, c, d)) => Some(IpAddr::V4(a, b, c, d)),
            None => match v6_of(s) {
                Some(v) => Some(IpAddr::V6(v[0], v[1], v[2], v[3], v[4], v[5], v[6], v[7])),
                None => None,
            },
        }
    }
}

// ---------------------------------------------------------------------------
// Laws
// ---------------------------------------------------------------------------

/// Whether a text is free of a character.
spec fn free_of(s: Seq<char>, c: char) -> bool {
    forall|i: int| 0 <= i < s.len() ==> #[trigger] s[i] != c
}

proof fn lemma_octet(n: u8)
    ensures
        octet(dec(n as nat)) == Some(n),
        free_of(dec(n as nat), '.'),
        free_of(dec(n as nat), ':'),
{
    lemma_dec_digits(n as nat);
}

#[verifier::spinoff_prover]
#[verifier::rlimit(60)]
proof fn lemma_octets(a: u8, b: u8, c: u8, d: u8, head: Seq<char>)
    requires
        free_of(head, '.'),
    ensures
        split(head + dotted(a, b, c, d), '.') == seq![
            head + dec(a as nat),
            dec(b as nat),
            dec(c as nat),
            dec(d as nat),
        ],
{
    reveal_strlit(".");
    lemma_octet(a);
    lemma_octet(b);
    lemma_octet(c);
    lemma_octet(d);
    let first = head + dec(a as nat);
    let v = seq![first, dec(b as nat), dec(c as nat), dec(d as nat)];
    assert forall|k: int, i: int| 0 <= k < v.len() && 0 <= i < v[k].len() implies #[trigger] v[k][i]
        != '.' by {
        if k == 0 {
            if i < head.len() {
                assert(first[i] == head[i]);
            } else {
                assert(first[i] == dec(a as nat)[i - head.len()]);
            }
        }
    }
    fields_read_back(v, '.');
    let dot = seq!['.'];
    assert("."@ =~= dot);
    assert(v.drop_last() =~= seq![first, dec(b as nat), dec(c as nat)]);
    assert(v.drop_last().drop_last() =~= seq![first, dec(b as nat)]);
    assert(v.drop_last().drop_last().drop_last() =~= seq![first]);
    reveal_with_fuel(join, 4);
    assert(join(v, dot) =~= head + dotted(a, b, c, d));
}

proof fn lemma_v4_reads_back(a: u8, b: u8, c: u8, d: u8)
    ensures
        read_v4(dotted(a, b, c, d)) == Some((a, b, c, d)),
{
    let none = Seq::<char>::empty();
    lemma_octets(a, b, c, d, none);
    lemma_octet(a);
    lemma_octet(b);
    lemma_octet(c);
    lemma_octet(d);
    assert(none + dotted(a, b, c, d) =~= dotted(a, b, c, d));
    assert(none + dec(a as nat) =~= dec(a as nat));
}

proof fn lemma_undotted(s: Seq<char>)
    requires
        free_of(s, '.'),
    ensures
        read_v4(s) is None,
{
    lemma_find_char_is(s, '.', s.len() as int);
    assert(split(s, '.') =~= seq![s]);
}

/// A row of groups: digits and single colons, with a digit at either end.
spec fn row_of_groups(s: Seq<char>) -> bool {
    &&& forall|i: int| 0 <= i < s.len() ==> hex_digit(#[trigger] s[i]) || s[i] == ':'
    &&& forall|i: int| 0 <= i < s.len() - 1 && s[i] == ':' ==> #[trigger] s[i + 1] != ':'
    &&& s.len() > 0 ==> s[0] != ':' && s[s.len() - 1] != ':'
}

proof fn lemma_colons(s: Seq<u16>)
    ensures
        row_of_groups(colons(s)),
        free_of(colons(s), '.'),
        s.len() == 0 <==> colons(s).len() == 0,
    decreases s.len(),
{
    reveal_strlit(":");
    let v = hex_texts(s);
    if s.len() > 0 {
        let last = hex(s.last() as nat);
        lemma_hex_digits(s.last() as nat);
        assert(v.last() == last);
        assert(last.len() > 0 && hex_digit(last[0]) && hex_digit(last[last.len() - 1]));
        if s.len() == 1 {
            assert(colons(s) == v[0]);
            assert(v[0] == last);
        } else {
            let front = s.drop_last();
            assert(v.drop_last() =~= hex_texts(front));
            lemma_colons(front);
            let x = colons(front);
            let whole = colons(s);
            assert(whole == x + ":"@ + last);
            assert forall|i: int| 0 <= i < whole.len() implies hex_digit(#[trigger] whole[i])
                || whole[i] == ':' by {
                if i < x.len() {
                    assert(whole[i] == x[i]);
                } else if i > x.len() {
                    assert(whole[i] == last[i - x.len() - 1]);
                }
            }
            assert forall|i: int| 0 <= i < whole.len() - 1 && whole[i] == ':' implies #[trigger] whole[i
                + 1] != ':' by {
                if i + 1 < x.len() {
                    assert(whole[i] == x[i] && whole[i + 1] == x[i + 1]);
                } else if i + 1 == x.len() {
                    assert(whole[i] == x[x.len() - 1]);
                } else {
                    assert(whole[i + 1] == last[i - x.len()]);
                    assert(hex_digit(last[i - x.len()]));
                }
            }
            assert(whole[0] == x[0]);
            assert(whole[whole.len() - 1] == last[last.len() - 1]);
        }
    } else {
        assert(colons(s) =~= Seq::<char>::empty());
    }
}

proof fn lemma_hextets(s: Seq<u16>)
    ensures
        read_hextets(hex_texts(s)) == Some(s),
    decreases s.len(),
{
    let v = hex_texts(s);
    if s.len() == 0 {
        assert(s =~= seq![]);
    } else {
        assert(v.drop_last() =~= hex_texts(s.drop_last()));
        lemma_hextets(s.drop_last());
        lemma_hex_digits(s.last() as nat);
        assert(s.drop_last().push(s.last()) =~= s);
    }
}

proof fn lemma_groups_read_back(s: Seq<u16>, dotted_end: bool)
    ensures
        read_groups(colons(s), dotted_end) == Some(s),
{
    reveal_strlit(":");
    lemma_colons(s);
    if s.len() == 0 {
        assert(s =~= seq![]);
    } else {
        let v = hex_texts(s);
        assert forall|k: int, i: int| 0 <= k < v.len() && 0 <= i < v[k].len() implies #[trigger] v[k][i]
            != ':' by {
            lemma_hex_digits(s[k] as nat);
            assert(hex_digit(v[k][i]));
        }
        assert(":"@ =~= seq![':']);
        fields_read_back(v, ':');
        lemma_hextets(s);
        lemma_hex_digits(s.last() as nat);
        assert(v.last() == hex(s.last() as nat));
        assert forall|i: int| 0 <= i < v.last().len() implies #[trigger] v.last()[i] != '.' by {
            assert(hex_digit(v.last()[i]));
        }
        lemma_undotted(v.last());
    }
}

proof fn lemma_zero_run(s: Seq<u16>, i: int)
    requires
        0 <= i <= s.len(),
    ensures
        i + zero_run(s, i) <= s.len(),
        forall|k: int| i <= k < i + zero_run(s, i) ==> #[trigger] s[k] == 0,
    decreases s.len() - i,
{
    if i < s.len() && s[i] == 0 {
        lemma_zero_run(s, i + 1);
    }
}

proof fn lemma_longest(s: Seq<u16>, n: nat)
    ensures
        0 <= longest_zeros(s, n),
        n > 0 ==> longest_zeros(s, n) < n,
        n == 0 ==> longest_zeros(s, n) == 0,
    decreases n,
{
    if n > 0 {
        lemma_longest(s, (n - 1) as nat);
    }
}

proof fn lemma_grouped_is_undotted(s: Seq<u16>)
    requires
        s.len() == 8,
    ensures
        free_of(grouped(s), '.'),
{
    reveal_strlit("::");
    let b = longest_zeros(s, 8);
    let n = zero_run(s, b);
    let whole = grouped(s);
    if n > 1 {
        let x = colons(s.take(b));
        let y = colons(s.skip(b + n));
        lemma_colons(s.take(b));
        lemma_colons(s.skip(b + n));
        assert forall|i: int| 0 <= i < whole.len() implies #[trigger] whole[i] != '.' by {
            if i < x.len() {
                assert(whole[i] == x[i]);
            } else if i >= x.len() + 2 {
                assert(whole[i] == y[i - x.len() - 2]);
            }
        }
    } else {
        lemma_colons(s);
    }
}

/// The first `::` of two rows of groups with one between them is that one.
proof fn lemma_gap_found(x: Seq<char>, y: Seq<char>)
    requires
        row_of_groups(x),
    ensures
        ({
            let whole = x + "::"@ + y;
            &&& find(whole, "::"@) == Some(x.len() as int)
            &&& whole.take(x.len() as int) == x
            &&& whole.skip(x.len() as int + 2) == y
        }),
{
    reveal_strlit("::");
    let whole = x + "::"@ + y;
    let at = x.len() as int;
    assert(whole.subrange(at, at + 2) =~= "::"@);
    assert(has_at(whole, "::"@, at));
    assert forall|j: int| 0 <= j < at implies !has_at(whole, "::"@, j) by {
        if has_at(whole, "::"@, j) {
            assert(whole.subrange(j, j + 2)[0] == ':' && whole.subrange(j, j + 2)[1] == ':');
            assert(whole[j] == x[j]);
            if j + 1 < at {
                assert(whole[j + 1] == x[j + 1]);
            }
        }
    }
    lemma_find_from(whole, "::"@, 0);
    assert(whole.take(at) =~= x);
    assert(whole.skip(at + 2) =~= y);
}

/// A row of groups has no `::` in it.
proof fn lemma_no_gap(x: Seq<char>)
    requires
        row_of_groups(x),
    ensures
        find(x, "::"@) is None,
{
    reveal_strlit("::");
    lemma_find_from(x, "::"@, 0);
    if let Some(i) = find(x, "::"@) {
        assert(has_at(x, "::"@, i));
        assert(x.subrange(i, i + 2)[0] == ':' && x.subrange(i, i + 2)[1] == ':');
        assert(x[i] == ':' && x[i + 1] == ':');
    }
}

/// A row of zeros fills the gap it left.
proof fn lemma_gap_filled(s: Seq<u16>, b: int, n: int)
    requires
        s.len() == 8,
        0 <= b,
        0 <= n,
        b + n <= 8,
        forall|k: int| b <= k < b + n ==> #[trigger] s[k] == 0,
    ensures
        ({
            let h = s.take(b);
            let t = s.skip(b + n);
            h + Seq::new((8 - h.len() - t.len()) as nat, |k: int| 0u16) + t == s
        }),
{
    let h = s.take(b);
    let t = s.skip(b + n);
    let zeros = Seq::new((8 - h.len() - t.len()) as nat, |k: int| 0u16);
    assert(h + zeros + t =~= s) by {
        assert forall|k: int| 0 <= k < 8 implies (h + zeros + t)[k] == s[k] by {
            if b <= k < b + n {
                assert(s[k] == 0);
            }
        }
    }
}

proof fn lemma_grouped_reads_back(s: Seq<u16>)
    requires
        s.len() == 8,
    ensures
        read_v6(grouped(s)) == Some(s),
        read_v4(grouped(s)) is None,
{
    let b = longest_zeros(s, 8);
    lemma_longest(s, 8);
    lemma_zero_run(s, b);
    let n = zero_run(s, b);
    let whole = grouped(s);
    lemma_grouped_is_undotted(s);
    lemma_undotted(whole);
    if n > 1 {
        let (h, t) = (s.take(b), s.skip(b + n));
        lemma_colons(h);
        lemma_gap_found(colons(h), colons(t));
        lemma_groups_read_back(h, false);
        lemma_groups_read_back(t, true);
        lemma_gap_filled(s, b, n as int);
    } else {
        lemma_colons(s);
        lemma_no_gap(colons(s));
        lemma_groups_read_back(s, true);
    }
}

proof fn lemma_mapped_is_not_dotted(a: u8, b: u8, c: u8, d: u8)
    ensures
        read_v4("::ffff:"@ + dotted(a, b, c, d)) is None,
{
    reveal_strlit("::ffff:");
    let head = "::ffff:"@;
    lemma_octets(a, b, c, d, head);
    let p = head + dec(a as nat);
    assert(p.take(1) =~= seq![':']);
    assert(digits_value(seq![':'], 10) is None);
    lemma_digits_fail(p, 10, 1);
}

proof fn lemma_ffff()
    ensures
        read_hextets(seq![seq!['f', 'f', 'f', 'f']]) == Some(seq![0xffffu16]),
{
    let group = seq!['f', 'f', 'f', 'f'];
    assert(hex(0xffff) =~= group) by {
        reveal_with_fuel(hex, 5);
    }
    assert(hex_texts(seq![0xffffu16]) =~= seq![group]);
    lemma_hextets(seq![0xffffu16]);
}

proof fn lemma_dotted_free_of_colons(a: u8, b: u8, c: u8, d: u8)
    ensures
        free_of(dotted(a, b, c, d), ':'),
{
    reveal_strlit(".");
    lemma_octet(a);
    lemma_octet(b);
    lemma_octet(c);
    lemma_octet(d);
}

/// What stands behind the two colons of a mapped address.
#[verifier::spinoff_prover]
#[verifier::rlimit(60)]
proof fn lemma_mapped_tail(a: u8, b: u8, c: u8, d: u8)
    ensures
        read_groups(seq!['f', 'f', 'f', 'f'] + seq![':'] + dotted(a, b, c, d), true) == Some(
            seq![0xffffu16, (a * 256 + b) as u16, (c * 256 + d) as u16],
        ),
{
    let group = seq!['f', 'f', 'f', 'f'];
    let tail = dotted(a, b, c, d);
    let v = seq![group, tail];
    let colon = seq![':'];
    lemma_dotted_free_of_colons(a, b, c, d);
    assert forall|k: int, i: int| 0 <= k < v.len() && 0 <= i < v[k].len() implies #[trigger] v[k][i]
        != ':' by {
        if k == 1 {
            assert(v[k][i] == tail[i]);
        }
    }
    fields_read_back(v, ':');
    assert(v.drop_last() =~= seq![group]);
    assert(join(seq![group], colon) == group);
    assert(join(v, colon) == group + colon + tail);
    lemma_ffff();
    lemma_v4_reads_back(a, b, c, d);
    assert(seq![0xffffu16].push((a * 256 + b) as u16).push((c * 256 + d) as u16) =~= seq![
        0xffffu16,
        (a * 256 + b) as u16,
        (c * 256 + d) as u16,
    ]);
}

#[verifier::spinoff_prover]
#[verifier::rlimit(60)]
proof fn lemma_mapped_reads_back(a: u8, b: u8, c: u8, d: u8)
    ensures
        read_v6("::ffff:"@ + dotted(a, b, c, d)) == Some(
            seq![0u16, 0, 0, 0, 0, 0xffff, (a * 256 + b) as u16, (c * 256 + d) as u16],
        ),
{
    reveal_strlit("::ffff:");
    reveal_strlit("::");
    let tail = dotted(a, b, c, d);
    let s = "::ffff:"@ + tail;
    assert(s.subrange(0, 2) =~= "::"@);
    assert(has_at(s, "::"@, 0));
    assert(find(s, "::"@) == Some(0int));
    assert(s.take(0) =~= Seq::<char>::empty());
    assert(s.skip(2) =~= seq!['f', 'f', 'f', 'f'] + seq![':'] + tail);
    lemma_mapped_tail(a, b, c, d);
    let none = Seq::<u16>::empty();
    let t = seq![0xffffu16, (a * 256 + b) as u16, (c * 256 + d) as u16];
    assert(read_groups(s.take(0), false) == Some(none));
    assert(none + Seq::new((8 - none.len() - t.len()) as nat, |k: int| 0u16) + t =~= seq![
        0u16,
        0,
        0,
        0,
        0,
        0xffff,
        (a * 256 + b) as u16,
        (c * 256 + d) as u16,
    ]);
}

proof fn lemma_mapped_address(a: IpAddr)
    requires
        a.mapped() is Some,
    ensures
        read_addr(a.spelling()) == Some(a),
{
    if let IpAddr::V6(_, _, _, _, _, _, g, h) = a {
        let (w, x) = ((g / 256) as u8, (g % 256) as u8);
        let (y, z) = ((h / 256) as u8, (h % 256) as u8);
        assert(a.spelling() == "::ffff:"@ + dotted(w, x, y, z));
        lemma_mapped_is_not_dotted(w, x, y, z);
        lemma_mapped_reads_back(w, x, y, z);
        assert((w * 256 + x) as u16 == g);
        assert((y * 256 + z) as u16 == h);
    }
}

/// The spelling of an IPv4 address reads as one.
pub proof fn lemma_v4_spelling_reads(a: IpAddr)
    requires
        a is V4,
    ensures
        read_v4(a.spelling()) is Some,
{
    if let IpAddr::V4(w, x, y, z) = a {
        lemma_v4_reads_back(w, x, y, z);
    }
}

/// Only a mapped address has an IPv4 one behind `::ffff:` in its spelling.
pub proof fn lemma_no_v4_inside(a: IpAddr)
    requires
        a.mapped() is None,
    ensures
        !starts_with(a.spelling(), "::ffff:"@) || read_v4(a.spelling().skip(7)) is None,
{
    reveal_strlit("::ffff:");
    let s = a.spelling();
    match a {
        IpAddr::V4(w, x, y, z) => {
            lemma_dotted_free_of_colons(w, x, y, z);
            if starts_with(s, "::ffff:"@) {
                assert(s.subrange(0, 7)[0] == ':');
                assert(s[0] == ':');
            }
        },
        IpAddr::V6(..) => {
            if starts_with(s, "::ffff:"@) {
                lemma_grouped_is_undotted(a.groups());
                let t = s.skip(7);
                assert forall|i: int| 0 <= i < t.len() implies #[trigger] t[i] != '.' by {
                    assert(t[i] == s[i + 7]);
                }
                lemma_undotted(t);
            }
        },
    }
}

/// An address reads back from its spelling.
pub proof fn an_address_reads_back(a: IpAddr)
    ensures
        read_addr(a.spelling()) == Some(a),
{
    match a {
        IpAddr::V4(w, x, y, z) => {
            lemma_v4_reads_back(w, x, y, z);
        },
        IpAddr::V6(..) => {
            if a.mapped() is Some {
                lemma_mapped_address(a);
            } else {
                let s = a.groups();
                lemma_grouped_reads_back(s);
                assert(a == IpAddr::V6(s[0], s[1], s[2], s[3], s[4], s[5], s[6], s[7]));
            }
        },
    }
}

/// Two addresses are spelled alike only where they are one address.
pub proof fn a_spelling_tells_addresses_apart(a: IpAddr, b: IpAddr)
    requires
        a.spelling() == b.spelling(),
    ensures
        a == b,
{
    an_address_reads_back(a);
    an_address_reads_back(b);
}

/// An address as one number, the way it goes over the wire.
pub open spec fn as_number(a: IpAddr) -> int {
    match a {
        IpAddr::V4(a, b, c, d) => a * 0x1000000 + b * 0x10000 + c * 0x100 + d,
        IpAddr::V6(a, b, c, d, e, f, g, h) => a * 0x10000_0000_0000_0000_0000_0000_0000 + b
            * 0x10000_0000_0000_0000_0000_0000 + c * 0x10000_0000_0000_0000_0000 + d
            * 0x10000_0000_0000_0000 + e * 0x10000_0000_0000 + f * 0x10000_0000 + g * 0x10000 + h,
    }
}

/// No address is the number nought, what stays on the machine begins with 127 or is
/// the number one, and what stands for an IPv4 address is that number with sixteen
/// ones in front of it.
pub proof fn an_address_is_told_by_its_number(a: IpAddr)
    ensures
        a.unspecified() <==> as_number(a) == 0,
        a is V4 ==> (a.loopback() <==> 0x7f000000 <= as_number(a) <= 0x7fffffff),
        a is V6 ==> (a.loopback() <==> as_number(a) == 1),
        a is V4 ==> a.mapped() is None,
        a is V6 ==> (a.mapped() is Some <==> 0xffff_0000_0000 <= as_number(a) <= 0xffff_ffff_ffff),
        a.mapped() matches Some(b) ==> b is V4 && as_number(b) == as_number(a) - 0xffff_0000_0000,
        a.flat().flat() == a.flat(),
        a.mapped() is None ==> a.flat() == a,
        a.mapped() matches Some(b) ==> a.flat() == b,
{
}

proof fn lemma_octet_is_canonical(s: Seq<char>, n: u8)
    requires
        octet(s) == Some(n),
    ensures
        s == dec(n as nat),
{
    let none = Seq::<char>::empty();
    reveal_with_fuel(digits_value, 4);
    reveal_with_fuel(dec, 4);
    if s.len() == 1 {
        assert(s.drop_last() =~= none);
        assert(s =~= dec(n as nat));
    } else if s.len() == 2 {
        let t = s.drop_last();
        assert(t.drop_last() =~= none);
        assert(s[0] == t[0] && t.last() == s[0] && s.last() == s[1]);
        assert(s =~= dec(n as nat));
    } else {
        let t = s.drop_last();
        let u = t.drop_last();
        assert(u.drop_last() =~= none);
        assert(u.last() == s[0] && t.last() == s[1] && s.last() == s[2]);
        assert(s =~= dec(n as nat));
    }
}

/// There is one way to write an IPv4 address: four numbers with dots between them
/// and no zeros in front. Nothing else reads as one.
pub proof fn an_ipv4_address_is_written_one_way(s: Seq<char>, a: u8, b: u8, c: u8, d: u8)
    ensures
        read_addr(s) == Some(IpAddr::V4(a, b, c, d)) <==> s == dotted(a, b, c, d),
{
    lemma_v4_reads_back(a, b, c, d);
    if read_v4(s) == Some((a, b, c, d)) {
        let p = split(s, '.');
        lemma_octet_is_canonical(p[0], a);
        lemma_octet_is_canonical(p[1], b);
        lemma_octet_is_canonical(p[2], c);
        lemma_octet_is_canonical(p[3], d);
        let none = Seq::<char>::empty();
        lemma_octets(a, b, c, d, none);
        assert(none + dotted(a, b, c, d) =~= dotted(a, b, c, d));
        assert(none + dec(a as nat) =~= dec(a as nat));
        assert(p =~= split(dotted(a, b, c, d), '.'));
        fields_make_up_their_text(s, '.');
        fields_make_up_their_text(dotted(a, b, c, d), '.');
    }
}

proof fn lemma_gap_undotted(x: Seq<char>, y: Seq<char>)
    requires
        free_of(x, '.'),
        free_of(y, '.'),
    ensures
        read_v4(x + "::"@ + y) is None,
{
    reveal_strlit("::");
    let whole = x + "::"@ + y;
    assert forall|i: int| 0 <= i < whole.len() implies #[trigger] whole[i] != '.' by {
        if i < x.len() {
            assert(whole[i] == x[i]);
        } else if i >= x.len() + 2 {
            assert(whole[i] == y[i - x.len() - 2]);
        }
    }
    lemma_undotted(whole);
}

proof fn lemma_groups_of_eight(v: Seq<u16>)
    requires
        v.len() == 8,
    ensures
        IpAddr::V6(v[0], v[1], v[2], v[3], v[4], v[5], v[6], v[7]).groups() == v,
{
    assert(seq![v[0], v[1], v[2], v[3], v[4], v[5], v[6], v[7]] =~= v);
}

/// Two colons stand for as many zero groups as are left out, wherever they are, and
/// at least for one.
pub proof fn two_colons_stand_for_what_is_left_out(h: Seq<u16>, t: Seq<u16>)
    ensures
        h.len() + t.len() <= 7 ==> (read_addr(colons(h) + "::"@ + colons(t)) matches Some(a)
            && a.groups() == h + Seq::new((8 - h.len() - t.len()) as nat, |k: int| 0u16) + t),
        h.len() + t.len() > 7 ==> read_addr(colons(h) + "::"@ + colons(t)) is None,
{
    lemma_colons(h);
    lemma_colons(t);
    lemma_gap_found(colons(h), colons(t));
    lemma_gap_undotted(colons(h), colons(t));
    lemma_groups_read_back(h, false);
    lemma_groups_read_back(t, true);
    if h.len() + t.len() <= 7 {
        lemma_groups_of_eight(h + Seq::new((8 - h.len() - t.len()) as nat, |k: int| 0u16) + t);
    }
}

/// Where nothing is left out there are eight groups, neither more nor fewer.
pub proof fn an_address_has_eight_groups(s: Seq<u16>)
    ensures
        s.len() == 8 ==> (read_addr(colons(s)) matches Some(a) && a.groups() == s),
        s.len() != 8 ==> read_addr(colons(s)) is None,
{
    lemma_colons(s);
    lemma_no_gap(colons(s));
    lemma_undotted(colons(s));
    lemma_groups_read_back(s, true);
    if s.len() == 8 {
        lemma_groups_of_eight(s);
    }
}

/// Whether `m` zero groups stand in a row from position `j` on.
pub open spec fn zeros_at(s: Seq<u16>, j: int, m: nat) -> bool {
    0 <= j && j + m <= s.len() && forall|k: int| j <= k < j + m ==> #[trigger] s[k] == 0
}

proof fn lemma_run_is_whole(s: Seq<u16>, i: int)
    requires
        0 <= i <= s.len(),
    ensures
        zeros_at(s, i, zero_run(s, i)),
        i + zero_run(s, i) < s.len() ==> s[i + zero_run(s, i)] != 0,
    decreases s.len() - i,
{
    lemma_zero_run(s, i);
    if i < s.len() && s[i] == 0 {
        lemma_run_is_whole(s, i + 1);
    }
}

proof fn lemma_longest_is_longest(s: Seq<u16>, n: nat, j: int)
    requires
        n <= s.len(),
        0 <= j < n,
    ensures
        zero_run(s, j) <= zero_run(s, longest_zeros(s, n)),
        j < longest_zeros(s, n) ==> zero_run(s, j) < zero_run(s, longest_zeros(s, n)),
    decreases n,
{
    let m = (n - 1) as nat;
    lemma_longest(s, m);
    if j < m {
        lemma_longest_is_longest(s, m, j);
    }
}

/// An address is written as short as it can be: two colons stand for the row of
/// zero groups that no other is longer than, and of those as long, for the first.
pub proof fn the_longest_row_of_zeros_is_left_out(a: IpAddr, i: int, n: nat)
    requires
        a is V6,
        a.mapped() is None,
        n > 1,
        zeros_at(a.groups(), i, n),
        forall|j: int, m: nat| #[trigger]
            zeros_at(a.groups(), j, m) ==> m < n || m == n && i <= j,
    ensures
        a.spelling() == colons(a.groups().take(i)) + "::"@ + colons(a.groups().skip(i + n)),
{
    let s = a.groups();
    let b = longest_zeros(s, 8);
    let r = zero_run(s, b);
    lemma_longest(s, 8);
    lemma_run_is_whole(s, b);
    lemma_run_is_whole(s, i);
    lemma_longest_is_longest(s, 8, i);
    if zero_run(s, i) < n {
        assert(s[i + zero_run(s, i)] == 0);
    }
    assert(r == n);
    assert(i <= b);
    if i < b {
        assert(zero_run(s, i) < r);
    }
}

/// A zero group that stands alone is written like any other.
pub proof fn a_single_zero_is_written_out(a: IpAddr)
    requires
        a is V6,
        forall|j: int, m: nat| #[trigger] zeros_at(a.groups(), j, m) ==> m <= 1,
    ensures
        a.spelling() == colons(a.groups()),
{
    let s = a.groups();
    let b = longest_zeros(s, 8);
    lemma_longest(s, 8);
    lemma_run_is_whole(s, b);
    if a.mapped() is Some {
        assert(zeros_at(s, 0, 2));
    }
}

} // verus!
