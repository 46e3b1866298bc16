//! Parsing `/proc/net/{tcp,tcp6,udp,udp6}`.
//!
//! This is the source `ss` and `lsof` read. It is parsed here rather than
//! shelled out to: the output of those tools is a human format that changes
//! between releases, and when it drifts the failure is a missing row, on a
//! screen whose entire claim is that it shows everything.

use vstd::prelude::*;
use vstd::string::*;

use crate::addr::IpAddr;
use crate::num::{
    decimal, digit_char, digits_value, hex2, hex4, hexadecimal, lemma_digit_char, push_hex2,
    read_decimal, read_hexadecimal, without_plus,
};
use crate::services;
use crate::text::{
    chars_of, cut, ends, ends_with, lemma_find_char_is, lines, lines_of, piece, split_once, texts,
    words, words_of,
};

verus! {

/// Which `/proc/net` table a row came from.
#[derive(Debug, Clone, Copy, PartialEq, Eq, Hash, Structural)]
pub enum Proto {
    Tcp,
    Tcp6,
    Udp,
    Udp6,
}

impl Proto {
    pub open spec fn file(self) -> Seq<char> {
        match self {
            Proto::Tcp => "/proc/net/tcp"@,
            Proto::Tcp6 => "/proc/net/tcp6"@,
            Proto::Udp => "/proc/net/udp"@,
            Proto::Udp6 => "/proc/net/udp6"@,
        }
    }

    /// The tables that write addresses as 32 hexadecimal digits.
    pub open spec fn v6(self) -> bool {
        self is Tcp6 || self is Udp6
    }

    pub open spec fn carrier(self) -> services::Proto {
        match self {
            Proto::Tcp | Proto::Tcp6 => services::Proto::Tcp,
            Proto::Udp | Proto::Udp6 => services::Proto::Udp,
        }
    }

    pub open spec fn name(self) -> Seq<char> {
        match self {
            Proto::Tcp => "tcp"@,
            Proto::Tcp6 => "tcp6"@,
            Proto::Udp => "udp"@,
            Proto::Udp6 => "udp6"@,
        }
    }

    /// The `/proc/net` file this protocol lives in.
    pub fn proc_file(self) -> (r: &'static str)
        ensures
            r@ == self.file(),
    {
        match self {
            Proto::Tcp => "/proc/net/tcp",
            Proto::Tcp6 => "/proc/net/tcp6",
            Proto::Udp => "/proc/net/udp",
            Proto::Udp6 => "/proc/net/udp6",
        }
    }

    /// True for the v6 tables, which encode addresses as 32 hex chars.
    pub fn is_v6(self) -> (r: bool)
        ensures
            r == self.v6(),
    {
        match self {
            Proto::Tcp6 | Proto::Udp6 => true,
            Proto::Tcp | Proto::Udp => false,
        }
    }

    /// The transport, for looking a port up in `/etc/services`.
    pub fn transport(self) -> (r: services::Proto)
        ensures
            r == self.carrier(),
    {
        match self {
            Proto::Tcp | Proto::Tcp6 => services::Proto::Tcp,
            Proto::Udp | Proto::Udp6 => services::Proto::Udp,
        }
    }

    /// Human label.
    pub fn label(self) -> (r: &'static str)
        ensures
            r@ == self.name(),
    {
        match self {
            Proto::Tcp => "tcp",
            Proto::Tcp6 => "tcp6",
            Proto::Udp => "udp",
            Proto::Udp6 => "udp6",
        }
    }
}

/// The labels of two tables are alike only where they are one table.
pub proof fn labels_tell_tables_apart(p: Proto, q: Proto)
    ensures
        p.name() == q.name() <==> p == q,
{
    reveal_strlit("tcp");
    reveal_strlit("tcp6");
    reveal_strlit("udp");
    reveal_strlit("udp6");
    assert("tcp"@[0] == 't' && "tcp6"@[0] == 't' && "udp"@[0] == 'u' && "udp6"@[0] == 'u');
    assert("tcp"@.len() == 3 && "tcp6"@.len() == 4 && "udp"@.len() == 3 && "udp6"@.len() == 4);
}

/// TCP connection state, as the kernel's `st` column.
///
/// UDP rows carry the same column; only `Established` (1) and `Close` (7)
/// are meaningful there, which is why this is not a TCP-only type.
#[derive(Debug, Clone, Copy, PartialEq, Eq, Structural)]
pub enum State {
    Established,
    SynSent,
    SynRecv,
    FinWait1,
    FinWait2,
    TimeWait,
    Close,
    CloseWait,
    LastAck,
    Listen,
    Closing,
    Unknown(u8),
}

impl State {
    /// The state that a number in the `st` column stands for.
    pub open spec fn of(v: u8) -> State {
        if v == 0x01 {
            State::Established
        } else if v == 0x02 {
            State::SynSent
        } else if v == 0x03 {
            State::SynRecv
        } else if v == 0x04 {
            State::FinWait1
        } else if v == 0x05 {
            State::FinWait2
        } else if v == 0x06 {
            State::TimeWait
        } else if v == 0x07 {
            State::Close
        } else if v == 0x08 {
            State::CloseWait
        } else if v == 0x09 {
            State::LastAck
        } else if v == 0x0A {
            State::Listen
        } else if v == 0x0B {
            State::Closing
        } else {
            State::Unknown(v)
        }
    }

    /// Traffic, rather than a listener, a corpse or a number nobody knows.
    pub open spec fn active(self) -> bool {
        !(self is Listen || self is Close || self is Unknown)
    }

    pub open spec fn spelling(self) -> Seq<char> {
        match self {
            State::Established => "ESTAB"@,
            State::SynSent => "SYN-SENT"@,
            State::SynRecv => "SYN-RECV"@,
            State::FinWait1 => "FIN-WAIT-1"@,
            State::FinWait2 => "FIN-WAIT-2"@,
            State::TimeWait => "TIME-WAIT"@,
            State::Close => "CLOSE"@,
            State::CloseWait => "CLOSE-WAIT"@,
            State::LastAck => "LAST-ACK"@,
            State::Listen => "LISTEN"@,
            State::Closing => "CLOSING"@,
            State::Unknown(v) => "UNKNOWN(0x"@ + hex2(v as nat) + ")"@,
        }
    }

    pub fn from_hex(v: u8) -> (r: Self)
        ensures
            r == State::of(v),
    {
        match v {
            0x01 => State::Established,
            0x02 => State::SynSent,
            0x03 => State::SynRecv,
            0x04 => State::FinWait1,
            0x05 => State::FinWait2,
            0x06 => State::TimeWait,
            0x07 => State::Close,
            0x08 => State::CloseWait,
            0x09 => State::LastAck,
            0x0A => State::Listen,
            0x0B => State::Closing,
            other => State::Unknown(other),
        }
    }

    /// True when this socket represents traffic actually leaving or
    /// arriving, rather than a listener or a corpse.
    ///
    /// `TimeWait` counts: it is a connection that just happened, and a view
    /// that hides it loses the last thing an app did before you looked.
    pub fn is_active(self) -> (r: bool)
        ensures
            r == self.active(),
    {
        match self {
            State::Established | State::SynSent | State::SynRecv | State::FinWait1
            | State::FinWait2 | State::TimeWait | State::CloseWait | State::LastAck
            | State::Closing => true,
            State::Listen | State::Close | State::Unknown(_) => false,
        }
    }

    /// The name `ss` gives this state.
    pub fn to_text(&self) -> (r: String)
        ensures
            r@ == self.spelling(),
    {
        match *self {
            State::Established => String::from_str("ESTAB"),
            State::SynSent => String::from_str("SYN-SENT"),
            State::SynRecv => String::from_str("SYN-RECV"),
            State::FinWait1 => String::from_str("FIN-WAIT-1"),
            State::FinWait2 => String::from_str("FIN-WAIT-2"),
            State::TimeWait => String::from_str("TIME-WAIT"),
            State::Close => String::from_str("CLOSE"),
            State::CloseWait => String::from_str("CLOSE-WAIT"),
            State::LastAck => String::from_str("LAST-ACK"),
            State::Listen => String::from_str("LISTEN"),
            State::Closing => String::from_str("CLOSING"),
            State::Unknown(v) => {
                let mut s: String = String::from_str("UNKNOWN(0x");
                push_hex2(&mut s, v);
                s.append(")");
                s
            },
        }
    }
}

/// One socket, exactly as the kernel reports it. No attribution yet.
#[derive(Debug, Clone, Copy, PartialEq, Eq, Structural)]
pub struct Socket {
    pub proto: Proto,
    pub local_addr: IpAddr,
    pub local_port: u16,
    pub remote_addr: IpAddr,
    pub remote_port: u16,
    pub state: State,
    /// Owning uid. Cheap attribution when the pid scan cannot see the
    /// process (another user's, or gone between reads).
    pub uid: u32,
    /// The socket inode. This is the join key to `/proc/<pid>/fd`.
    pub inode: u64,
}

impl Socket {
    /// Whether the peer is a real remote, not a placeholder.
    pub open spec fn peered(self) -> bool {
        self.remote_port != 0 && !self.remote_addr.unspecified()
    }

    /// True when the peer is a real remote, not a placeholder.
    ///
    /// Listening sockets and unconnected UDP report `0.0.0.0:0` or `[::]:0`.
    pub fn has_peer(&self) -> (r: bool)
        ensures
            r == self.peered(),
    {
        self.remote_port != 0 && !self.remote_addr.is_unspecified()
    }
}

// ---------------------------------------------------------------------------
// What a row says
// ---------------------------------------------------------------------------

/// The order in which a machine keeps the bytes of a number.
#[derive(Debug, Clone, Copy, PartialEq, Eq, Structural)]
pub enum ByteOrder {
    /// The lowest byte first.
    Little,
    /// The highest byte first.
    Big,
}

/// The order in which this machine keeps the bytes of a number: the same for
/// every number, and left open, so that what is proved holds on either machine.
pub open spec fn machine_order() -> ByteOrder {
    match vstd::endian::endianness() {
        vstd::endian::Endian::Little => ByteOrder::Little,
        vstd::endian::Endian::Big => ByteOrder::Big,
    }
}

/// The four bytes of a word, in the order a machine keeps them.
pub open spec fn word_bytes(order: ByteOrder, w: u32) -> (u8, u8, u8, u8) {
    let a = (w / 0x1000000) as u8;
    let b = (w / 0x10000 % 0x100) as u8;
    let c = (w / 0x100 % 0x100) as u8;
    let d = (w % 0x100) as u8;
    match order {
        ByteOrder::Little => (d, c, b, a),
        ByteOrder::Big => (a, b, c, d),
    }
}

/// The address that eight hexadecimal digits stand for.
///
/// The kernel writes each 32-bit word in host byte order.
pub open spec fn v4_field(order: ByteOrder, s: Seq<char>) -> Option<IpAddr> {
    if s.len() != 8 {
        None
    } else {
        match hexadecimal(s, 0xffff_ffff) {
            Some(w) => {
                let (a, b, c, d) = word_bytes(order, w as u32);
                Some(IpAddr::V4(a, b, c, d))
            },
            None => None,
        }
    }
}

/// The two groups that the `k`th eight hexadecimal digits stand for.
pub open spec fn word_groups(order: ByteOrder, s: Seq<char>, k: int) -> Option<(u16, u16)> {
    match hexadecimal(s.subrange(k * 8, k * 8 + 8), 0xffff_ffff) {
        Some(w) => {
            let (a, b, c, d) = word_bytes(order, w as u32);
            Some(((a * 256 + b) as u16, (c * 256 + d) as u16))
        },
        None => None,
    }
}

/// The address that 32 hexadecimal digits stand for: the bytes are in host
/// order within each word, and the words themselves are in order.
pub open spec fn v6_field(order: ByteOrder, s: Seq<char>) -> Option<IpAddr> {
    if s.len() != 32 {
        None
    } else {
        match (
            word_groups(order, s, 0),
            word_groups(order, s, 1),
            word_groups(order, s, 2),
            word_groups(order, s, 3),
        ) {
            (Some((a, b)), Some((c, d)), Some((e, f)), Some((g, h))) => Some(
                IpAddr::V6(a, b, c, d, e, f, g, h),
            ),
            _ => None,
        }
    }
}

/// `ADDR:PORT`, both in hexadecimal.
pub open spec fn endpoint(order: ByteOrder, s: Seq<char>, v6: bool) -> Option<(IpAddr, u16)> {
    match split_once(s, ':') {
        Some((addr, port)) => match (
            if v6 {
                v6_field(order, addr)
            } else {
                v4_field(order, addr)
            },
            hexadecimal(port, 0xffff),
        ) {
            (Some(a), Some(p)) => Some((a, p as u16)),
            _ => None,
        },
        None => None,
    }
}

/// What one row of a table says.
///
/// A data row's first field ends in a colon, which the header's does not.
/// Then come the two endpoints and the state; the owner is the eighth field
/// and the inode the tenth.
pub open spec fn row(order: ByteOrder, proto: Proto, line: Seq<char>) -> Option<Socket> {
    let w = words(line);
    if w.len() < 10 || !ends_with(w[0], ":"@) {
        None
    } else {
        match (
            endpoint(order, w[1], proto.v6()),
            endpoint(order, w[2], proto.v6()),
            hexadecimal(w[3], 0xff),
            decimal(w[7], 0xffff_ffff),
            decimal(w[9], 0xffff_ffff_ffff_ffff),
        ) {
            (Some((la, lp)), Some((ra, rp)), Some(st), Some(uid), Some(inode)) => Some(
                Socket {
                    proto,
                    local_addr: la,
                    local_port: lp,
                    remote_addr: ra,
                    remote_port: rp,
                    state: State::of(st as u8),
                    uid: uid as u32,
                    inode: inode as u64,
                },
            ),
            _ => None,
        }
    }
}

/// The sockets that the lines of a table give, in order.
pub open spec fn rows(order: ByteOrder, proto: Proto, ls: Seq<Seq<char>>) -> Seq<Socket>
    decreases ls.len(),
{
    if ls.len() == 0 {
        seq![]
    } else {
        let before = rows(order, proto, ls.drop_last());
        match row(order, proto, ls.last()) {
            Some(s) => before.push(s),
            None => before,
        }
    }
}

// ---------------------------------------------------------------------------
// Reading a table
// ---------------------------------------------------------------------------

/// `u32::to_ne_bytes`: the bytes of a number in the machine's own order, which
/// is one order for every number. Which of the two it is depends on the machine
/// and is not said.
#[verifier::external_body]
fn native_bytes(w: u32) -> (r: [u8; 4])
    ensures
        (r[0], r[1], r[2], r[3]) == word_bytes(machine_order(), w),
{
    w.to_ne_bytes()
}

/// The order in which this machine keeps the bytes of a number, told by where
/// the one of the number one stands.
pub(crate) fn host_order() -> (r: ByteOrder)
    ensures
        r == machine_order(),
{
    let b: [u8; 4] = native_bytes(1);
    if b[0] == 1 {
        ByteOrder::Little
    } else {
        ByteOrder::Big
    }
}

fn bytes_of(order: ByteOrder, w: u32) -> (r: (u8, u8, u8, u8))
    ensures
        r == word_bytes(order, w),
{
    let a: u8 = (w / 0x1000000) as u8;
    let b: u8 = (w / 0x10000 % 0x100) as u8;
    let c: u8 = (w / 0x100 % 0x100) as u8;
    let d: u8 = (w % 0x100) as u8;
    match order {
        ByteOrder::Little => (d, c, b, a),
        ByteOrder::Big => (a, b, c, d),
    }
}

fn read_word(order: ByteOrder, v: &Vec<char>, k: usize) -> (r: Option<(u16, u16)>)
    requires
        v@.len() == 32,
        k < 4,
    ensures
        r == word_groups(order, v@, k as int),
{
    let hex: String = piece(v, k * 8, k * 8 + 8);
    match read_hexadecimal(hex.as_str(), 0xffff_ffff) {
        Some(w) => {
            let (a, b, c, d): (u8, u8, u8, u8) = bytes_of(order, w as u32);
            Some((a as u16 * 256 + b as u16, c as u16 * 256 + d as u16))
        },
        None => None,
    }
}

fn read_v6_field(order: ByteOrder, s: &str) -> (r: Option<IpAddr>)
    ensures
        r == v6_field(order, s@),
{
    let v: Vec<char> = chars_of(s);
    if v.len() != 32 {
        return None;
    }
    match (
        read_word(order, &v, 0),
        read_word(order, &v, 1),
        read_word(order, &v, 2),
        read_word(order, &v, 3),
    ) {
        (Some((a, b)), Some((c, d)), Some((e, f)), Some((g, h))) => Some(
            IpAddr::V6(a, b, c, d, e, f, g, h),
        ),
        _ => None,
    }
}

fn read_v4_field(order: ByteOrder, s: &str) -> (r: Option<IpAddr>)
    ensures
        r == v4_field(order, s@),
{
    let v: Vec<char> = chars_of(s);
    if v.len() != 8 {
        return None;
    }
    match read_hexadecimal(s, 0xffff_ffff) {
        Some(w) => {
            let (a, b, c, d): (u8, u8, u8, u8) = bytes_of(order, w as u32);
            Some(IpAddr::V4(a, b, c, d))
        },
        None => None,
    }
}

/// `ADDR:PORT` where ADDR is 8 hex chars (v4) or 32 (v6).
///
/// Getting the byte order wrong produces plausible-looking addresses that are
/// silently the wrong host.
fn parse_endpoint(order: ByteOrder, s: &str, v6: bool) -> (r: Option<(IpAddr, u16)>)
    ensures
        r == endpoint(order, s@, v6),
{
    match cut(s, ':') {
        Some((addr, port)) => {
            let a: Option<IpAddr> = if v6 {
                read_v6_field(order, addr.as_str())
            } else {
                read_v4_field(order, addr.as_str())
            };
            match (a, read_hexadecimal(port.as_str(), 0xffff)) {
                (Some(a), Some(p)) => Some((a, p as u16)),
                _ => None,
            }
        },
        None => None,
    }
}

fn parse_row(order: ByteOrder, proto: Proto, line: &str) -> (r: Option<Socket>)
    ensures
        r == row(order, proto, line@),
{
    let w: Vec<String> = words_of(line);
    let ghost t = texts(w@);
    assert(t.len() == w@.len());
    if w.len() < 10 {
        return None;
    }
    assert(t[0] == w@[0]@ && t[1] == w@[1]@ && t[2] == w@[2]@ && t[3] == w@[3]@ && t[7] == w@[7]@
        && t[9] == w@[9]@);
    if !ends(w[0].as_str(), ":") {
        return None;
    }
    let local: Option<(IpAddr, u16)> = parse_endpoint(order, w[1].as_str(), proto.is_v6());
    let remote: Option<(IpAddr, u16)> = parse_endpoint(order, w[2].as_str(), proto.is_v6());
    let st: Option<u64> = read_hexadecimal(w[3].as_str(), 0xff);
    let uid: Option<u64> = read_decimal(w[7].as_str(), 0xffff_ffff);
    let inode: Option<u64> = read_decimal(w[9].as_str(), 0xffff_ffff_ffff_ffff);
    match (local, remote, st, uid, inode) {
        (Some((la, lp)), Some((ra, rp)), Some(st), Some(uid), Some(inode)) => Some(
            Socket {
                proto,
                local_addr: la,
                local_port: lp,
                remote_addr: ra,
                remote_port: rp,
                state: State::from_hex(st as u8),
                uid: uid as u32,
                inode,
            },
        ),
        _ => None,
    }
}

/// Parse one `/proc/net` table of a machine with the given byte order.
///
/// Unparseable rows are skipped rather than failing the whole table: a
/// kernel that adds a column should cost you one row, not the entire view.
/// The header line is skipped by the same mechanism.
pub fn parse_table_in(order: ByteOrder, proto: Proto, text: &str) -> (r: Vec<Socket>)
    ensures
        r@ == rows(order, proto, lines(text@)),
{
    let ls: Vec<String> = lines_of(text);
    let ghost all = texts(ls@);
    let mut out: Vec<Socket> = Vec::new();
    let mut i: usize = 0;
    assert(all.take(0) =~= Seq::<Seq<char>>::empty());
    while i < ls.len()
        invariant
            i <= ls@.len(),
            all == texts(ls@),
            out@ == rows(order, proto, all.take(i as int)),
        decreases ls@.len() - i,
    {
        assert(all.take(i + 1).drop_last() =~= all.take(i as int));
        assert(all.take(i + 1).last() == ls@[i as int]@);
        if let Some(s) = parse_row(order, proto, ls[i].as_str()) {
            out.push(s);
        }
        i += 1;
    }
    assert(all.take(i as int) =~= all);
    out
}

/// Parse one `/proc/net` table of this machine.
///
/// The kernel writes addresses in the byte order of the machine it runs on,
/// and that is the order they are read in.
pub fn parse_table(proto: Proto, text: &str) -> (r: Vec<Socket>)
    ensures
        r@ == rows(machine_order(), proto, lines(text@)),
{
    parse_table_in(host_order(), proto, text)
}

// ---------------------------------------------------------------------------
// Laws
// ---------------------------------------------------------------------------

/// Rows are read one by one: what a table gives is what its parts give.
pub proof fn rows_of_two_parts(order: ByteOrder, proto: Proto, a: Seq<Seq<char>>, b: Seq<Seq<char>>)
    ensures
        rows(order, proto, a + b) == rows(order, proto, a) + rows(order, proto, b),
    decreases b.len(),
{
    if b.len() == 0 {
        assert(a + b =~= a);
        assert(rows(order, proto, a) + rows(order, proto, b) =~= rows(order, proto, a));
    } else {
        rows_of_two_parts(order, proto, a, b.drop_last());
        assert((a + b).drop_last() =~= a + b.drop_last());
        assert((a + b).last() == b.last());
        let r = rows(order, proto, a);
        match row(order, proto, b.last()) {
            Some(s) => {
                assert((r + rows(order, proto, b.drop_last())).push(s) =~= r + rows(
                    order,
                    proto,
                    b.drop_last(),
                ).push(s));
            },
            None => {},
        }
    }
}

/// A row that cannot be read costs itself and no other row.
pub proof fn one_bad_row_costs_one_row(
    order: ByteOrder,
    proto: Proto,
    before: Seq<Seq<char>>,
    bad: Seq<char>,
    after: Seq<Seq<char>>,
)
    requires
        row(order, proto, bad) is None,
    ensures
        rows(order, proto, before.push(bad) + after) == rows(order, proto, before + after),
{
    rows_of_two_parts(order, proto, before.push(bad), after);
    rows_of_two_parts(order, proto, before, after);
    assert(before.push(bad).drop_last() =~= before);
}

/// A line whose first word does not end in a colon, as the header's does not,
/// is never a row.
pub proof fn a_header_is_never_a_row(order: ByteOrder, proto: Proto, line: Seq<char>)
    requires
        words(line).len() > 0,
        !ends_with(words(line)[0], ":"@),
    ensures
        row(order, proto, line) is None,
{
}

/// Every row of a table carries the protocol the table was read for, and an
/// address of its family.
pub proof fn rows_belong_to_their_table(order: ByteOrder, proto: Proto, ls: Seq<Seq<char>>, i: int)
    requires
        0 <= i < rows(order, proto, ls).len(),
    ensures
        rows(order, proto, ls)[i].proto == proto,
        rows(order, proto, ls)[i].local_addr is V6 <==> proto.v6(),
        rows(order, proto, ls)[i].remote_addr is V6 <==> proto.v6(),
    decreases ls.len(),
{
    let t = rows(order, proto, ls.drop_last());
    if i < t.len() {
        rows_belong_to_their_table(order, proto, ls.drop_last(), i);
    }
}

// ---------------------------------------------------------------------------
// What is written in a table, and what is read there
// ---------------------------------------------------------------------------

/// The states by their numbers: each number from one to eleven is one state, and
/// no other number is any of them.
pub proof fn each_number_is_one_state(v: u8)
    ensures
        State::of(v) is Established <==> v == 1,
        State::of(v) is SynSent <==> v == 2,
        State::of(v) is SynRecv <==> v == 3,
        State::of(v) is FinWait1 <==> v == 4,
        State::of(v) is FinWait2 <==> v == 5,
        State::of(v) is TimeWait <==> v == 6,
        State::of(v) is Close <==> v == 7,
        State::of(v) is CloseWait <==> v == 8,
        State::of(v) is LastAck <==> v == 9,
        State::of(v) is Listen <==> v == 10,
        State::of(v) is Closing <==> v == 11,
        v == 0 || v > 11 ==> State::of(v) == State::Unknown(v),
        State::of(v).active() <==> 1 <= v <= 11 && v != 7 && v != 10,
{
}

/// A byte in two hexadecimal digits.
proof fn lemma_two_digits(s: Seq<char>, x: nat)
    requires
        x < 256,
        digits_value(s, 16) is Some,
    ensures
        digits_value(s + hex2(x), 16) == Some(digits_value(s, 16)->0 * 256 + x),
{
    let v = digits_value(s, 16)->0;
    let a = digit_char(x / 16 % 16);
    let b = digit_char(x % 16);
    lemma_digit_char(x / 16 % 16);
    lemma_digit_char(x % 16);
    let one = s + seq![a];
    let two = s + hex2(x);
    assert(one.drop_last() =~= s);
    assert(two.drop_last() =~= one);
    assert(digits_value(one, 16) == Some(v * 16 + x / 16 % 16));
    assert(digits_value(two, 16) == Some((v * 16 + x / 16 % 16) * 16 + x % 16));
    assert((v * 16 + x / 16 % 16) * 16 + x % 16 == v * 256 + x) by (nonlinear_arith)
        requires
            x < 256,
    ;
}

/// Four bytes as the kernel writes them: one word, in the machine's own order.
pub open spec fn word_text(order: ByteOrder, a: u8, b: u8, c: u8, d: u8) -> Seq<char> {
    match order {
        ByteOrder::Little => hex2(d as nat) + hex2(c as nat) + hex2(b as nat) + hex2(a as nat),
        ByteOrder::Big => hex2(a as nat) + hex2(b as nat) + hex2(c as nat) + hex2(d as nat),
    }
}

proof fn lemma_word(order: ByteOrder, a: u8, b: u8, c: u8, d: u8)
    ensures
        word_text(order, a, b, c, d).len() == 8,
        hexadecimal(word_text(order, a, b, c, d), 0xffff_ffff) is Some,
        word_bytes(order, hexadecimal(word_text(order, a, b, c, d), 0xffff_ffff)->0 as u32) == (
            a,
            b,
            c,
            d,
        ),
{
    let (p, q, r, s): (u8, u8, u8, u8) = match order {
        ByteOrder::Little => (d, c, b, a),
        ByteOrder::Big => (a, b, c, d),
    };
    let none: Seq<char> = seq![];
    lemma_two_digits(none, p as nat);
    lemma_two_digits(none + hex2(p as nat), q as nat);
    lemma_two_digits(none + hex2(p as nat) + hex2(q as nat), r as nat);
    lemma_two_digits(none + hex2(p as nat) + hex2(q as nat) + hex2(r as nat), s as nat);
    let t = word_text(order, a, b, c, d);
    assert(t =~= none + hex2(p as nat) + hex2(q as nat) + hex2(r as nat) + hex2(s as nat));
    let n = ((p as nat * 256 + q as nat) * 256 + r as nat) * 256 + s as nat;
    assert(digits_value(t, 16) == Some(n));
    lemma_digit_char(p as nat / 16 % 16);
    assert(t[0] == digit_char(p as nat / 16 % 16));
    assert(without_plus(t) == t);
    assert(n <= 0xffff_ffff);
    let w = n as u32;
    assert(w / 0x1000000 == p && w / 0x10000 % 0x100 == q && w / 0x100 % 0x100 == r && w % 0x100
        == s) by (nonlinear_arith)
        requires
            w == ((p as nat * 256 + q as nat) * 256 + r as nat) * 256 + s as nat,
            p <= 255,
            q <= 255,
            r <= 255,
            s <= 255,
    ;
}

/// How the kernel writes an address: the bytes of each word of it in the
/// machine's own order, and the words one after the other.
pub open spec fn address_text(order: ByteOrder, a: IpAddr) -> Seq<char> {
    match a {
        IpAddr::V4(a, b, c, d) => word_text(order, a, b, c, d),
        IpAddr::V6(a, b, c, d, e, f, g, h) => pair_text(order, a, b) + pair_text(order, c, d)
            + pair_text(order, e, f) + pair_text(order, g, h),
    }
}

/// Two groups, as one word.
pub open spec fn pair_text(order: ByteOrder, g: u16, h: u16) -> Seq<char> {
    word_text(order, (g / 256) as u8, (g % 256) as u8, (h / 256) as u8, (h % 256) as u8)
}

proof fn lemma_pair(order: ByteOrder, s: Seq<char>, k: int, g: u16, h: u16)
    requires
        0 <= k,
        s.len() >= k * 8 + 8,
        s.subrange(k * 8, k * 8 + 8) == pair_text(order, g, h),
    ensures
        word_groups(order, s, k) == Some((g, h)),
{
    let a = (g / 256) as u8;
    let b = (g % 256) as u8;
    let c = (h / 256) as u8;
    let d = (h % 256) as u8;
    lemma_word(order, a, b, c, d);
    assert(g / 256 <= 255 && h / 256 <= 255);
    assert(a * 256 + b == g && c * 256 + d == h);
}

/// Every address that the kernel writes is read as that address, on a machine of
/// either order.
pub proof fn a_written_address_is_read(order: ByteOrder, a: IpAddr)
    ensures
        a is V4 ==> v4_field(order, address_text(order, a)) == Some(a),
        a is V6 ==> v6_field(order, address_text(order, a)) == Some(a),
{
    match a {
        IpAddr::V4(p, q, r, s) => {
            lemma_word(order, p, q, r, s);
        },
        IpAddr::V6(p, q, r, s, t, u, v, w) => {
            let x = address_text(order, a);
            let one = pair_text(order, p, q);
            let two = pair_text(order, r, s);
            let three = pair_text(order, t, u);
            let four = pair_text(order, v, w);
            lemma_word(
                order,
                (p / 256) as u8,
                (p % 256) as u8,
                (q / 256) as u8,
                (q % 256) as u8,
            );
            lemma_word(
                order,
                (r / 256) as u8,
                (r % 256) as u8,
                (s / 256) as u8,
                (s % 256) as u8,
            );
            lemma_word(
                order,
                (t / 256) as u8,
                (t % 256) as u8,
                (u / 256) as u8,
                (u % 256) as u8,
            );
            lemma_word(
                order,
                (v / 256) as u8,
                (v % 256) as u8,
                (w / 256) as u8,
                (w % 256) as u8,
            );
            assert(x.len() == 32);
            assert(x.subrange(0, 8) =~= one);
            assert(x.subrange(8, 16) =~= two);
            assert(x.subrange(16, 24) =~= three);
            assert(x.subrange(24, 32) =~= four);
            lemma_pair(order, x, 0, p, q);
            lemma_pair(order, x, 1, r, s);
            lemma_pair(order, x, 2, t, u);
            lemma_pair(order, x, 3, v, w);
        },
    }
}

spec fn no_colon(s: Seq<char>) -> bool {
    forall|i: int| 0 <= i < s.len() ==> #[trigger] s[i] != ':'
}

proof fn lemma_no_colon_parts(x: Seq<char>, y: Seq<char>)
    requires
        no_colon(x),
        no_colon(y),
    ensures
        no_colon(x + y),
{
    assert forall|i: int| 0 <= i < (x + y).len() implies #[trigger] (x + y)[i] != ':' by {
        if i < x.len() {
            assert((x + y)[i] == x[i]);
        } else {
            assert((x + y)[i] == y[i - x.len()]);
        }
    }
}

proof fn lemma_no_colon_byte(x: nat)
    ensures
        no_colon(hex2(x)),
{
    assert(digit_char(x / 16 % 16) != ':' && digit_char(x % 16) != ':');
}

proof fn lemma_no_colon_word(order: ByteOrder, a: u8, b: u8, c: u8, d: u8)
    ensures
        no_colon(word_text(order, a, b, c, d)),
{
    let (p, q, r, s): (u8, u8, u8, u8) = match order {
        ByteOrder::Little => (d, c, b, a),
        ByteOrder::Big => (a, b, c, d),
    };
    lemma_no_colon_byte(p as nat);
    lemma_no_colon_byte(q as nat);
    lemma_no_colon_byte(r as nat);
    lemma_no_colon_byte(s as nat);
    lemma_no_colon_parts(hex2(p as nat), hex2(q as nat));
    lemma_no_colon_parts(hex2(p as nat) + hex2(q as nat), hex2(r as nat));
    lemma_no_colon_parts(hex2(p as nat) + hex2(q as nat) + hex2(r as nat), hex2(s as nat));
}

proof fn lemma_no_colon_pair(order: ByteOrder, g: u16, h: u16)
    ensures
        no_colon(pair_text(order, g, h)),
{
    lemma_no_colon_word(
        order,
        (g / 256) as u8,
        (g % 256) as u8,
        (h / 256) as u8,
        (h % 256) as u8,
    );
}

proof fn lemma_no_colon(order: ByteOrder, a: IpAddr)
    ensures
        no_colon(address_text(order, a)),
{
    match a {
        IpAddr::V4(p, q, r, s) => {
            lemma_no_colon_word(order, p, q, r, s);
        },
        IpAddr::V6(p, q, r, s, t, u, v, w) => {
            let one = pair_text(order, p, q);
            let two = pair_text(order, r, s);
            let three = pair_text(order, t, u);
            let four = pair_text(order, v, w);
            lemma_no_colon_pair(order, p, q);
            lemma_no_colon_pair(order, r, s);
            lemma_no_colon_pair(order, t, u);
            lemma_no_colon_pair(order, v, w);
            lemma_no_colon_parts(one, two);
            lemma_no_colon_parts(one + two, three);
            lemma_no_colon_parts(one + two + three, four);
        },
    }
}

proof fn lemma_port(port: u16)
    ensures
        hexadecimal(hex4(port as nat), 0xffff) == Some(port as nat),
{
    let y = hex4(port as nat);
    let none: Seq<char> = seq![];
    let n = port as nat;
    assert(port / 4096 % 16 == port / 256 / 16 % 16) by (bit_vector);
    assert(port % 256 / 16 % 16 == port / 16 % 16) by (bit_vector);
    assert(port % 256 % 16 == port % 16) by (bit_vector);
    let high = n / 256;
    let low = n % 256;
    assert(hex2(high) == seq![digit_char(n / 4096 % 16), digit_char(n / 256 % 16)]);
    assert(hex2(low) == seq![digit_char(n / 16 % 16), digit_char(n % 16)]);
    lemma_four(
        digit_char(n / 4096 % 16),
        digit_char(n / 256 % 16),
        digit_char(n / 16 % 16),
        digit_char(n % 16),
    );
    assert(y == none + hex2(high) + hex2(low));
    lemma_two_digits(none, high);
    lemma_two_digits(none + hex2(high), low);
    lemma_digit_char(n / 4096 % 16);
    assert(y[0] == digit_char(n / 4096 % 16));
    assert(without_plus(y) == y);
    assert(digits_value(y, 16) == Some(high * 256 + low));
}

proof fn lemma_four(a: char, b: char, c: char, d: char)
    ensures
        seq![a, b, c, d] == Seq::<char>::empty() + seq![a, b] + seq![c, d],
{
    assert(seq![a, b, c, d] =~= Seq::<char>::empty() + seq![a, b] + seq![c, d]);
}

/// An address and a port with a colon between them are read as they are written.
pub proof fn a_written_end_is_read(order: ByteOrder, a: IpAddr, port: u16)
    ensures
        endpoint(order, address_text(order, a) + seq![':'] + hex4(port as nat), a is V6) == Some(
            (a, port),
        ),
{
    a_written_address_is_read(order, a);
    lemma_no_colon(order, a);
    lemma_port(port);
    lemma_end(address_text(order, a), hex4(port as nat));
}

proof fn lemma_end(x: Seq<char>, y: Seq<char>)
    requires
        no_colon(x),
    ensures
        split_once(x + seq![':'] + y, ':') == Some((x, y)),
{
    let s = x + seq![':'] + y;
    assert forall|j: int| 0 <= j < x.len() implies #[trigger] s[j] != ':' by {
        assert(s[j] == x[j]);
    }
    lemma_find_char_is(s, ':', x.len() as int);
    assert(s.take(x.len() as int) =~= x);
    assert(s.skip(x.len() as int + 1) =~= y);
}

/// A row is read column by column: the local end is the second word, the remote
/// end the third, the state the fourth, the owner's uid the eighth and the inode
/// the tenth, whatever the other columns hold.
pub proof fn a_row_is_read_by_its_columns(
    order: ByteOrder,
    proto: Proto,
    line: Seq<char>,
    w: Seq<Seq<char>>,
    s: Socket,
    st: u8,
)
    requires
        words(line) == w,
        w.len() >= 10,
        w[0].len() > 0,
        w[0].last() == ':',
        w[1] == address_text(order, s.local_addr) + seq![':'] + hex4(s.local_port as nat),
        w[2] == address_text(order, s.remote_addr) + seq![':'] + hex4(s.remote_port as nat),
        w[3] == hex2(st as nat),
        w[7] == crate::num::dec(s.uid as nat),
        w[9] == crate::num::dec(s.inode as nat),
        s.state == State::of(st),
        s.proto == proto,
        s.local_addr is V6 <==> proto is Tcp6 || proto is Udp6,
        s.remote_addr is V6 <==> proto is Tcp6 || proto is Udp6,
    ensures
        row(order, proto, line) == Some(s),
{
    a_written_end_is_read(order, s.local_addr, s.local_port);
    a_written_end_is_read(order, s.remote_addr, s.remote_port);
    let none: Seq<char> = seq![];
    lemma_two_digits(none, st as nat);
    assert(none + hex2(st as nat) =~= hex2(st as nat));
    lemma_digit_char(st as nat / 16 % 16);
    assert(without_plus(w[3]) == w[3]);
    crate::num::dec_reads_back(s.uid as nat, 0xffff_ffff);
    crate::num::dec_reads_back(s.inode as nat, 0xffff_ffff_ffff_ffff);
    reveal_strlit(":");
    let f = w[0];
    assert(f.subrange(f.len() - 1, f.len() as int) =~= ":"@);
}

/// One more line is one more row, where it is a row, and it comes last.
pub proof fn a_table_is_read_line_by_line(
    order: ByteOrder,
    proto: Proto,
    ls: Seq<Seq<char>>,
    line: Seq<char>,
)
    ensures
        rows(order, proto, seq![]) == Seq::<Socket>::empty(),
        row(order, proto, line) matches Some(s) ==> rows(order, proto, ls.push(line)) == rows(
            order,
            proto,
            ls,
        ).push(s),
        row(order, proto, line) is None ==> rows(order, proto, ls.push(line)) == rows(
            order,
            proto,
            ls,
        ),
{
    assert(ls.push(line).drop_last() =~= ls);
}

/// A table is called by the protocol that it lists, and those for the longer
/// addresses by a six behind it.
pub proof fn a_table_is_called_by_its_protocol(p: Proto)
    ensures
        p.file() == "/proc/net/"@ + p.name(),
        p.v6() <==> p.name().last() == '6',
        p.carrier() == services::Proto::Tcp <==> p.name()[0] == 't',
        p.carrier() == services::Proto::Udp <==> p.name()[0] == 'u',
{
    reveal_strlit("/proc/net/");
    reveal_strlit("/proc/net/tcp");
    reveal_strlit("/proc/net/tcp6");
    reveal_strlit("/proc/net/udp");
    reveal_strlit("/proc/net/udp6");
    reveal_strlit("tcp");
    reveal_strlit("tcp6");
    reveal_strlit("udp");
    reveal_strlit("udp6");
    assert(p.file() =~= "/proc/net/"@ + p.name());
}

} // verus!
