//! The facts a policy has to be compiled against, out of what was read.
//!
//! Every one of these is a thing people get wrong by assuming. The Tor port is
//! 9040 if someone configured it; the VPN interface is `tun0` if it is OpenVPN
//! and the first one; a session is on port 22 if nobody moved it. So each is
//! read, and anything that cannot be read stays `None` and becomes a refusal
//! rather than a default.

use vstd::prelude::*;
use vstd::string::*;

use crate::addr::{
    an_address_reads_back, lemma_no_v4_inside, lemma_v4_spelling_reads, read_addr, read_v4, v4_of,
    IpAddr,
};
use crate::num::{dec, decimal, push_dec, read_decimal};
use crate::order::{
    lemma_lex_antisymmetric, lex_le, sort, sorted, sorting_keeps_every_value, stable_sort, views,
    Ranked, Sortable,
};
use crate::policy::{destined, filter_views, Host, HostView};
use crate::ports::EphemeralPorts;
use crate::proc_net::State;
use crate::procs::{scanned_views, ScannedProcess, ScannedView};
use crate::snapshot::{flow_views, listening, way, Direction, Flow, FlowView, Listeners};
use crate::text::{
    after_prefix, begins, borrow_opt, copy, is_whitespace, last_field, lemma_texts_push,
    line_starting, lines, lines_of, lists, opt_string, opt_text, first_starting, same, starts_with,
    strip_prefix, tail_field, texts, trim, trim_char, trim_start_str, trimmed, trimmed_char,
    trimmed_start_str, whitespace, chars_of, words, words_of,
};

verus! {

// ---------------------------------------------------------------------------
// Settings
// ---------------------------------------------------------------------------

/// The port a line of a torrc gives to a key: `9040`, `127.0.0.1:9040`, or
/// either with flags behind. A longer key that merely starts the same is
/// another key.
pub open spec fn port_on(line: Seq<char>, key: Seq<char>) -> Option<u16> {
    let l = trim(line);
    if starts_with(l, "#"@) {
        None
    } else {
        match strip_prefix(l, key) {
            Some(rest) => if rest.len() > 0 && is_whitespace(rest[0]) && words(rest).len() > 0 {
                match decimal(last_field(words(rest)[0], ':'), 65535) {
                    Some(p) => Some(p as u16),
                    None => None,
                }
            } else {
                None
            },
            None => None,
        }
    }
}

/// The first port that the lines give to a key.
pub open spec fn port_among(ls: Seq<Seq<char>>, key: Seq<char>) -> Option<u16>
    decreases ls.len(),
{
    if ls.len() == 0 {
        None
    } else {
        match port_on(ls[0], key) {
            Some(p) => Some(p),
            None => port_among(ls.skip(1), key),
        }
    }
}

/// The lines of a text, none where there is no text.
pub open spec fn lines_or_none(text: Option<Seq<char>>) -> Seq<Seq<char>> {
    match text {
        Some(t) => lines(t),
        None => seq![],
    }
}

fn lines_if(text: Option<&str>) -> (r: Vec<String>)
    ensures
        texts(r@) == lines_or_none(opt_text(text)),
{
    match text {
        Some(t) => lines_of(t),
        None => {
            let v: Vec<String> = Vec::new();
            assert(texts(v@) =~= Seq::<Seq<char>>::empty());
            v
        },
    }
}

fn read_port(line: &str, key: &str) -> (r: Option<u16>)
    ensures
        r == port_on(line@, key@),
{
    let l: String = trimmed(line);
    if begins(l.as_str(), "#") {
        return None;
    }
    let rest: String = match after_prefix(l.as_str(), key) {
        Some(rest) => rest,
        None => {
            return None;
        },
    };
    let v: Vec<char> = chars_of(rest.as_str());
    if v.len() == 0 || !whitespace(v[0]) {
        return None;
    }
    let w: Vec<String> = words_of(rest.as_str());
    assert(texts(w@).len() == w@.len());
    if w.len() == 0 {
        return None;
    }
    assert(texts(w@)[0] == w@[0]@);
    match read_decimal(tail_field(w[0].as_str(), ':').as_str(), 65535) {
        Some(p) => Some(p as u16),
        None => None,
    }
}

fn find_port(ls: &Vec<String>, key: &str) -> (r: Option<u16>)
    ensures
        r == port_among(texts(ls@), key@),
{
    let ghost all = texts(ls@);
    let mut i: usize = 0;
    assert(all.skip(0) =~= all);
    while i < ls.len()
        invariant
            i <= ls@.len(),
            all == texts(ls@),
            port_among(all, key@) == port_among(all.skip(i as int), key@),
        decreases ls@.len() - i,
    {
        assert(all.skip(i as int)[0] == ls@[i as int]@);
        if let Some(p) = read_port(ls[i].as_str(), key) {
            return Some(p);
        }
        assert(all.skip(i as int).skip(1) =~= all.skip(i + 1));
        i += 1;
    }
    None
}

/// `TransPort` and `DNSPort` from the text of a torrc, if they are set.
///
/// Only an explicit setting counts. Tor does not open these by default, so
/// reporting a default would produce a ruleset that redirects to a closed
/// port.
pub fn tor_ports(torrc: Option<&str>) -> (r: (Option<u16>, Option<u16>))
    ensures
        r.0 == port_among(lines_or_none(opt_text(torrc)), "TransPort"@),
        r.1 == port_among(lines_or_none(opt_text(torrc)), "DNSPort"@),
{
    let ls: Vec<String> = lines_if(torrc);
    (find_port(&ls, "TransPort"), find_port(&ls, "DNSPort"))
}

/// The `UID_MIN` a line of `/etc/login.defs` gives.
pub open spec fn uid_min_on(line: Seq<char>) -> Option<u32> {
    let l = trim(line);
    if starts_with(l, "#"@) {
        None
    } else {
        match strip_prefix(l, "UID_MIN"@) {
            Some(rest) => match decimal(trim(rest), 0xffff_ffff) {
                Some(n) => Some(n as u32),
                None => None,
            },
            None => None,
        }
    }
}

/// The first `UID_MIN` among lines, 1000 where there is none.
pub open spec fn uid_min_among(ls: Seq<Seq<char>>) -> u32
    decreases ls.len(),
{
    if ls.len() == 0 {
        1000
    } else {
        match uid_min_on(ls[0]) {
            Some(n) => n,
            None => uid_min_among(ls.skip(1)),
        }
    }
}

fn read_uid_min(line: &str) -> (r: Option<u32>)
    ensures
        r == uid_min_on(line@),
{
    let l: String = trimmed(line);
    if begins(l.as_str(), "#") {
        return None;
    }
    match after_prefix(l.as_str(), "UID_MIN") {
        Some(rest) => match read_decimal(trimmed(rest.as_str()).as_str(), 0xffff_ffff) {
            Some(n) => Some(n as u32),
            None => None,
        },
        None => None,
    }
}

/// `UID_MIN` from the text of `/etc/login.defs`: where real login accounts
/// start on this host. Read rather than assumed at 1000, because it is a
/// setting.
pub fn uid_min(login_defs: Option<&str>) -> (r: u32)
    ensures
        r == uid_min_among(lines_or_none(opt_text(login_defs))),
{
    let ls: Vec<String> = lines_if(login_defs);
    let ghost all = texts(ls@);
    let mut i: usize = 0;
    assert(all.skip(0) =~= all);
    while i < ls.len()
        invariant
            i <= ls@.len(),
            all == texts(ls@),
            all == lines_or_none(opt_text(login_defs)),
            uid_min_among(all) == uid_min_among(all.skip(i as int)),
        decreases ls@.len() - i,
    {
        assert(all.skip(i as int)[0] == ls@[i as int]@);
        if let Some(n) = read_uid_min(ls[i].as_str()) {
            return n;
        }
        assert(all.skip(i as int).skip(1) =~= all.skip(i + 1));
        i += 1;
    }
    1000
}

/// The effective uid in the text of a `/proc/<pid>/status`: the second of the
/// numbers behind `Uid:`.
pub open spec fn effective(status: Option<Seq<char>>) -> Option<u32> {
    match first_starting(lines_or_none(status), "Uid:"@) {
        Some(l) => {
            let w = words(l.skip("Uid:"@.len() as int));
            if w.len() > 1 {
                match decimal(w[1], 0xffff_ffff) {
                    Some(n) => Some(n as u32),
                    None => None,
                }
            } else {
                None
            }
        },
        None => None,
    }
}

/// The effective uid of a running process, from the text of its
/// `/proc/<pid>/status`.
///
/// Fields are `Uid: <real> <effective> <saved> <fs>`. Effective is the one the
/// kernel stamps on sockets the process creates.
pub fn effective_uid(status: Option<&str>) -> (r: Option<u32>)
    ensures
        r == effective(opt_text(status)),
{
    let ls: Vec<String> = lines_if(status);
    match line_starting(&ls, "Uid:") {
        Some(l) => {
            proof {
                lemma_first_starts(texts(ls@), "Uid:"@);
            }
            match after_prefix(l.as_str(), "Uid:") {
                Some(rest) => {
                    let w: Vec<String> = words_of(rest.as_str());
                    assert(texts(w@).len() == w@.len());
                    if w.len() > 1 {
                        assert(texts(w@)[1] == w@[1]@);
                        match read_decimal(w[1].as_str(), 0xffff_ffff) {
                            Some(n) => Some(n as u32),
                            None => None,
                        }
                    } else {
                        None
                    }
                },
                None => None,
            }
        },
        None => None,
    }
}

proof fn lemma_first_starts(ls: Seq<Seq<char>>, p: Seq<char>)
    ensures
        first_starting(ls, p) matches Some(l) ==> starts_with(l, p),
    decreases ls.len(),
{
    if ls.len() > 0 && !starts_with(ls[0], p) {
        lemma_first_starts(ls.skip(1), p);
    }
}

/// An address as nftables will see it: `::ffff:a.b.c.d` is the same host as
/// `a.b.c.d`, and an `ip daddr` match never sees the v6-mapped spelling. Any
/// other address that begins in this way, such as `::ffff:0:1:2`, is one of its
/// own.
pub open spec fn normal(addr: Seq<char>) -> Seq<char> {
    match strip_prefix(addr, "::ffff:"@) {
        Some(rest) => if read_v4(rest) is Some {
            rest
        } else {
            addr
        },
        None => addr,
    }
}

/// An address as nftables will see it.
pub fn normalise(addr: &str) -> (r: String)
    ensures
        r@ == normal(addr@),
{
    match after_prefix(addr, "::ffff:") {
        Some(rest) => match v4_of(rest.as_str()) {
            Some(_) => rest,
            None => copy(addr),
        },
        None => copy(addr),
    }
}

// ---------------------------------------------------------------------------
// Lists
// ---------------------------------------------------------------------------

/// The filters that can be read, in the order they come.
pub open spec fn filters_among(entries: Seq<(Seq<char>, Seq<char>)>) -> Seq<(Seq<char>, u8)>
    decreases entries.len(),
{
    if entries.len() == 0 {
        seq![]
    } else {
        let before = filters_among(entries.drop_last());
        match decimal(trim(entries.last().1), 255) {
            Some(n) => before.push((entries.last().0, n as u8)),
            None => before,
        }
    }
}

/// `rp_filter` for every interface: the names under
/// `/proc/sys/net/ipv4/conf`, each with the text of its `rp_filter`.
///
/// Includes the pseudo-interface `all`, because the kernel takes the maximum
/// of `all` and the specific interface.
pub fn rp_filter(entries: &Vec<(String, String)>) -> (r: Vec<(String, u8)>)
    ensures
        views(r@) == stable_sort(filters_among(views(entries@))),
{
    let ghost all = views(entries@);
    let mut out: Vec<(String, u8)> = Vec::new();
    let mut i: usize = 0;
    assert(all.take(0) =~= Seq::<(Seq<char>, Seq<char>)>::empty());
    assert(views(out@) =~= filters_among(all.take(0)));
    while i < entries.len()
        invariant
            i <= entries@.len(),
            all == views(entries@),
            views(out@) == filters_among(all.take(i as int)),
        decreases entries@.len() - i,
    {
        assert(all.take(i + 1).drop_last() =~= all.take(i as int));
        assert(all.take(i + 1).last() == entries@[i as int]@);
        if let Some(n) = read_decimal(trimmed(entries[i].1.as_str()).as_str(), 255) {
            let ghost before = out@;
            let pair: (String, u8) = (copy(entries[i].0.as_str()), n as u8);
            out.push(pair);
            assert(views(out@) =~= views(before).push(pair@));
        }
        i += 1;
    }
    assert(all.take(i as int) =~= all);
    sort(out)
}

/// Interface names, from `/sys/class/net`, in order.
pub fn interfaces(names: Vec<String>) -> (r: Vec<String>)
    ensures
        views(r@) == stable_sort(views(names@)),
{
    sort(names)
}

/// A directory under a slice of the cgroup tree, and the directories in it.
#[derive(Debug)]
pub struct CgroupDir {
    pub name: String,
    pub inner: Vec<String>,
}

/// What a [`CgroupDir`] says.
pub struct CgroupDirView {
    pub name: Seq<char>,
    pub inner: Seq<Seq<char>>,
}

impl View for CgroupDir {
    type V = CgroupDirView;

    open spec fn view(&self) -> CgroupDirView {
        CgroupDirView { name: self.name@, inner: texts(self.inner@) }
    }
}

pub open spec fn inner_paths(slice: Seq<char>, d: CgroupDirView) -> Seq<Seq<char>> {
    Seq::new(d.inner.len(), |i: int| slice + "/"@ + d.name + "/"@ + d.inner[i])
}

/// The paths under a slice, two levels of them. One level deeper covers a
/// user's own units, which is where a desktop application actually lives.
pub open spec fn slice_paths(slice: Seq<char>, dirs: Seq<CgroupDirView>) -> Seq<Seq<char>>
    decreases dirs.len(),
{
    if dirs.len() == 0 {
        seq![]
    } else {
        slice_paths(slice, dirs.drop_last()).push(slice + "/"@ + dirs.last().name) + inner_paths(
            slice,
            dirs.last(),
        )
    }
}

fn add_slice(out: &mut Vec<String>, slice: &str, dirs: &Vec<CgroupDir>)
    ensures
        texts(final(out)@) == texts(old(out)@) + slice_paths(slice@, views(dirs@)),
{
    let ghost start = texts(out@);
    let ghost all = views(dirs@);
    let mut i: usize = 0;
    assert(all.take(0) =~= Seq::<CgroupDirView>::empty());
    assert(texts(out@) =~= start + slice_paths(slice@, all.take(0)));
    while i < dirs.len()
        invariant
            i <= dirs@.len(),
            all == views(dirs@),
            texts(out@) == start + slice_paths(slice@, all.take(i as int)),
        decreases dirs@.len() - i,
    {
        let ghost done = slice_paths(slice@, all.take(i as int));
        let ghost dir = dirs@[i as int]@;
        assert(all.take(i + 1).drop_last() =~= all.take(i as int));
        assert(all.take(i + 1).last() == dir);
        let mut path: String = copy(slice);
        path.append("/");
        path.append(dirs[i].name.as_str());
        let ghost was = out@;
        let first: String = copy(path.as_str());
        out.push(first);
        proof {
            lemma_texts_push(was, first);
        }
        let ghost mid = texts(out@);
        assert(mid =~= start + done.push(path@));
        let mut k: usize = 0;
        assert(texts(out@) =~= mid + inner_paths(slice@, dir).take(0));
        while k < dirs[i].inner.len()
            invariant
                i < dirs@.len(),
                k <= dirs@[i as int].inner@.len(),
                dir == dirs@[i as int]@,
                path@ == slice@ + "/"@ + dir.name,
                texts(out@) == mid + inner_paths(slice@, dir).take(k as int),
            decreases dirs@[i as int].inner@.len() - k,
        {
            let ghost before = out@;
            let mut p: String = copy(path.as_str());
            p.append("/");
            p.append(dirs[i].inner[k].as_str());
            out.push(p);
            proof {
                lemma_texts_push(before, p);
                assert(inner_paths(slice@, dir)[k as int] == p@);
                assert(texts(out@) =~= mid + inner_paths(slice@, dir).take(k + 1));
            }
            k += 1;
        }
        assert(inner_paths(slice@, dir).take(k as int) =~= inner_paths(slice@, dir));
        assert(texts(out@) =~= start + slice_paths(slice@, all.take(i + 1)));
        i += 1;
    }
    assert(all.take(i as int) =~= all);
}

/// Every cgroup v2 path under `system.slice` and `user.slice`, relative to the
/// cgroup root, in order.
///
/// Only these two: they are where a service or a user's session lives, and
/// they are what a policy can usefully name.
pub fn cgroups(system: &Vec<CgroupDir>, user: &Vec<CgroupDir>) -> (r: Vec<String>)
    ensures
        texts(r@) == stable_sort(
            slice_paths("system.slice"@, views(system@)) + slice_paths(
                "user.slice"@,
                views(user@),
            ),
        ),
{
    let mut out: Vec<String> = Vec::new();
    assert(texts(out@) =~= Seq::<Seq<char>>::empty());
    add_slice(&mut out, "system.slice", system);
    assert(texts(out@) =~= slice_paths("system.slice"@, views(system@)));
    add_slice(&mut out, "user.slice", user);
    assert(views(out@) =~= texts(out@));
    let r: Vec<String> = sort(out);
    assert(views(r@) =~= texts(r@));
    r
}

// ---------------------------------------------------------------------------
// Processes
// ---------------------------------------------------------------------------

/// What was read of a process, by its pid.
pub open spec fn process(scan: Seq<ScannedView>, pid: u32) -> Option<ScannedView>
    decreases scan.len(),
{
    if scan.len() == 0 {
        None
    } else if scan[0].pid() == Some(pid) {
        Some(scan[0])
    } else {
        process(scan.skip(1), pid)
    }
}

/// The effective uid of a process, by its pid.
pub open spec fn uid_of(scan: Seq<ScannedView>, pid: u32) -> Option<u32> {
    match process(scan, pid) {
        Some(p) => effective(p.status),
        None => None,
    }
}

/// Whether one of a process's descriptors links to the text.
pub open spec fn names_socket(p: ScannedView, target: Seq<char>) -> bool {
    p.pid() is Some && p.links.contains(target)
}

/// The pids that hold a socket, in the order of the scan.
pub open spec fn holding(scan: Seq<ScannedView>, target: Seq<char>) -> Seq<u32>
    decreases scan.len(),
{
    if scan.len() == 0 {
        seq![]
    } else {
        let before = holding(scan.drop_last(), target);
        if names_socket(scan.last(), target) {
            before.push(scan.last().pid()->0)
        } else {
            before
        }
    }
}

/// What a descriptor of a socket links to.
pub open spec fn socket_link(inode: u64) -> Seq<char> {
    "socket:["@ + dec(inode as nat) + "]"@
}

/// Every pid holding a socket, in order.
pub open spec fn holders(scan: Seq<ScannedView>, inode: u64) -> Seq<u32> {
    if inode == 0 {
        seq![]
    } else {
        stable_sort(holding(scan, socket_link(inode)))
    }
}

fn find_process(scan: &Vec<ScannedProcess>, pid: u32) -> (r: Option<usize>)
    ensures
        match r {
            Some(i) => i < scan@.len() && process(scanned_views(scan@), pid) == Some(
                scan@[i as int]@,
            ),
            None => process(scanned_views(scan@), pid) is None,
        },
{
    let ghost all = scanned_views(scan@);
    let mut i: usize = 0;
    assert(all.skip(0) =~= all);
    while i < scan.len()
        invariant
            i <= scan@.len(),
            all == scanned_views(scan@),
            process(all, pid) == process(all.skip(i as int), pid),
        decreases scan@.len() - i,
    {
        assert(all.skip(i as int)[0] == scan@[i as int]@);
        if let Some(n) = read_decimal(scan[i].name.as_str(), 0xffff_ffff) {
            if n as u32 == pid {
                return Some(i);
            }
        }
        assert(all.skip(i as int).skip(1) =~= all.skip(i + 1));
        i += 1;
    }
    None
}

fn uid_by_pid(scan: &Vec<ScannedProcess>, pid: u32) -> (r: Option<u32>)
    ensures
        r == uid_of(scanned_views(scan@), pid),
{
    match find_process(scan, pid) {
        Some(i) => effective_uid(borrow_opt(&scan[i].status)),
        None => None,
    }
}

/// Every pid holding a given socket inode.
///
/// Attribution answers "who owns this", deliberately collapsing to one
/// process. This answers "who is holding it", which is a different question
/// with a different right answer when a daemon forks.
pub fn holders_of_inode(scan: &Vec<ScannedProcess>, inode: u64) -> (r: Vec<u32>)
    ensures
        r@ == holders(scanned_views(scan@), inode),
{
    if inode == 0 {
        return Vec::new();
    }
    let mut target: String = String::from_str("socket:[");
    push_dec(&mut target, inode);
    target.append("]");
    let ghost all = scanned_views(scan@);
    let mut out: Vec<u32> = Vec::new();
    let mut i: usize = 0;
    assert(all.take(0) =~= Seq::<ScannedView>::empty());
    while i < scan.len()
        invariant
            i <= scan@.len(),
            all == scanned_views(scan@),
            target@ == socket_link(inode),
            out@ == holding(all.take(i as int), target@),
        decreases scan@.len() - i,
    {
        assert(all.take(i + 1).drop_last() =~= all.take(i as int));
        assert(all.take(i + 1).last() == scan@[i as int]@);
        if let Some(pid) = read_decimal(scan[i].name.as_str(), 0xffff_ffff) {
            if lists(&scan[i].links, target.as_str()) {
                out.push(pid as u32);
            }
        }
        i += 1;
    }
    assert(all.take(i as int) =~= all);
    assert(views(out@) =~= out@);
    let r: Vec<u32> = sort(out);
    assert(views(r@) =~= r@);
    r
}

// ---------------------------------------------------------------------------
// Sessions
// ---------------------------------------------------------------------------

/// A live inbound session that a policy must not cut off.
#[derive(Debug, PartialEq, Eq)]
pub struct AdminSession {
    /// The remote address, spelled the way an nftables rule will see it.
    pub peer: String,
    /// The local port it arrived on.
    pub port: u16,
    /// The process holding it.
    pub holder: String,
    /// Whether this looks like somebody who has actually logged in.
    pub likely: bool,
    /// What that judgement is based on, in words, because it is a judgement
    /// and the person confirming it deserves to see the basis.
    pub evidence: String,
}

/// What an [`AdminSession`] says.
pub struct SessionView {
    pub peer: Seq<char>,
    pub port: u16,
    pub holder: Seq<char>,
    pub likely: bool,
    pub evidence: Seq<char>,
}

impl View for AdminSession {
    type V = SessionView;

    open spec fn view(&self) -> SessionView {
        SessionView {
            peer: self.peer@,
            port: self.port,
            holder: self.holder@,
            likely: self.likely,
            evidence: self.evidence@,
        }
    }
}

impl Clone for AdminSession {
    fn clone(&self) -> (r: Self)
        ensures
            r@ == self@,
    {
        AdminSession {
            peer: copy(self.peer.as_str()),
            port: self.port,
            holder: copy(self.holder.as_str()),
            likely: self.likely,
            evidence: copy(self.evidence.as_str()),
        }
    }
}

/// The likely ones first, and by address among themselves.
impl Ranked for SessionView {
    open spec fn le(self, other: Self) -> bool {
        if self.likely != other.likely {
            self.likely
        } else {
            lex_le(self.peer, other.peer)
        }
    }

    proof fn le_total(a: Self, b: Self) {
        crate::order::lemma_lex_total(a.peer, b.peer);
    }

    proof fn le_transitive(a: Self, b: Self, c: Self) {
        if a.likely == b.likely && b.likely == c.likely {
            crate::order::lemma_lex_transitive(a.peer, b.peer, c.peer);
        }
    }
}

impl Sortable for AdminSession {
    fn no_later(&self, other: &Self) -> (r: bool) {
        if self.likely != other.likely {
            self.likely
        } else {
            crate::order::at_most(self.peer.as_str(), other.peer.as_str())
        }
    }
}

/// Whether the ssh daemon listens on a port.
pub open spec fn ssh_listens(flows: Seq<FlowView>, port: u16) -> bool {
    exists|i: int| 0 <= i < flows.len() && ssh_listener(#[trigger] flows[i], port)
}

pub open spec fn ssh_listener(f: FlowView, port: u16) -> bool {
    &&& f.socket.state is Listen
    &&& f.socket.local_port == port
    &&& f.holder matches Some(h) && starts_with(h.comm, "sshd"@)
}

/// Whether a row is an open connection into the ssh daemon. A connection that
/// is not open yet is somebody knocking.
pub open spec fn is_session(f: FlowView, flows: Seq<FlowView>, ports: EphemeralPorts) -> bool {
    &&& f.socket.state is Established
    &&& way(f.socket, listening(flows), ports) is Inbound
    &&& ssh_listens(flows, f.socket.local_port)
}

/// The effective uids of the processes, where they can be read.
pub open spec fn uids_of(scan: Seq<ScannedView>, pids: Seq<u32>) -> Seq<u32>
    decreases pids.len(),
{
    if pids.len() == 0 {
        seq![]
    } else {
        let before = uids_of(scan, pids.drop_last());
        match uid_of(scan, pids.last()) {
            Some(u) => before.push(u),
            None => before,
        }
    }
}

/// The largest of some numbers.
pub open spec fn largest(s: Seq<u32>) -> Option<u32>
    decreases s.len(),
{
    if s.len() == 0 {
        None
    } else {
        match largest(s.drop_last()) {
            Some(m) if m > s.last() => Some(m),
            _ => Some(s.last()),
        }
    }
}

/// Whether one of the uids is a login account's. The ssh daemon drops to the
/// user's uid only after authentication.
pub open spec fn logged_in(uids: Seq<u32>, uid_min: u32) -> bool {
    exists|i: int| 0 <= i < uids.len() && #[trigger] uids[i] >= uid_min
}

/// What a judgement is based on.
pub open spec fn evidence_for(uids: Seq<u32>, uid_min: u32) -> Seq<char> {
    match largest(uids) {
        Some(u) => if logged_in(uids, uid_min) {
            "one of the "@ + dec(uids.len()) + " processes holding this socket runs as uid "@ + dec(
                u as nat,
            )
                + ", a login account -- sshd drops to the user's uid only after authentication"@
        } else {
            "every process holding this socket still runs as uid "@ + dec(u as nat) + " ("@ + dec(
                uids.len(),
            )
                + " of them). A connection reaches ESTABLISHED before any password is offered, so this may be an unauthenticated attempt rather than a session"@
        },
        None =>
        "the holding process is not readable, so nothing can be said about whether this connection is authenticated"@,
    }
}

/// The candidate that a row is.
///
/// Every process holding the socket is asked, not just the one it is
/// attributed to: the daemon keeps a monitor running as root next to the child
/// that has dropped to the logged-in user, and both hold the socket.
pub open spec fn session_of(f: FlowView, scan: Seq<ScannedView>, uid_min: u32) -> SessionView {
    let uids = uids_of(scan, holders(scan, f.socket.inode));
    SessionView {
        peer: normal(f.socket.remote_addr.spelling()),
        port: f.socket.local_port,
        holder: f.actor(),
        likely: logged_in(uids, uid_min),
        evidence: evidence_for(uids, uid_min),
    }
}

/// Whether a peer on a port is listed already.
pub open spec fn session_known(s: Seq<SessionView>, peer: Seq<char>, port: u16) -> bool {
    exists|i: int| 0 <= i < s.len() && (#[trigger] s[i]).peer == peer && s[i].port == port
}

/// The candidates among the first `n` rows, one for each peer and port.
pub open spec fn sessions(
    flows: Seq<FlowView>,
    n: nat,
    scan: Seq<ScannedView>,
    ports: EphemeralPorts,
    uid_min: u32,
) -> Seq<SessionView>
    decreases n,
{
    if n == 0 {
        seq![]
    } else {
        let before = sessions(flows, (n - 1) as nat, scan, ports, uid_min);
        let f = flows[n - 1];
        let s = session_of(f, scan, uid_min);
        if is_session(f, flows, ports) && !session_known(before, s.peer, s.port) {
            before.push(s)
        } else {
            before
        }
    }
}

fn has_ssh_listener(flows: &[Flow], port: u16) -> (r: bool)
    ensures
        r == ssh_listens(flow_views(flows@), port),
{
    let ghost all = flow_views(flows@);
    let mut i: usize = 0;
    while i < flows.len()
        invariant
            i <= flows@.len(),
            all == flow_views(flows@),
            forall|k: int| 0 <= k < i ==> !ssh_listener(#[trigger] all[k], port),
        decreases flows@.len() - i,
    {
        assert(all[i as int] == flows@[i as int]@);
        let f: &Flow = &flows[i];
        let ssh: bool = match &f.holder {
            Some(h) => begins(h.comm.as_str(), "sshd"),
            None => false,
        };
        if f.socket.state == State::Listen && f.socket.local_port == port && ssh {
            assert(ssh_listener(all[i as int], port));
            return true;
        }
        i += 1;
    }
    false
}

fn uids(scan: &Vec<ScannedProcess>, pids: &Vec<u32>) -> (r: Vec<u32>)
    ensures
        r@ == uids_of(scanned_views(scan@), pids@),
{
    let ghost view = scanned_views(scan@);
    let mut out: Vec<u32> = Vec::new();
    let mut i: usize = 0;
    assert(pids@.take(0) =~= Seq::<u32>::empty());
    while i < pids.len()
        invariant
            i <= pids@.len(),
            view == scanned_views(scan@),
            out@ == uids_of(view, pids@.take(i as int)),
        decreases pids@.len() - i,
    {
        assert(pids@.take(i + 1).drop_last() =~= pids@.take(i as int));
        if let Some(u) = uid_by_pid(scan, pids[i]) {
            out.push(u);
        }
        i += 1;
    }
    assert(pids@.take(i as int) =~= pids@);
    out
}

fn largest_of(v: &Vec<u32>) -> (r: Option<u32>)
    ensures
        r == largest(v@),
{
    let mut best: Option<u32> = None;
    let mut i: usize = 0;
    assert(v@.take(0) =~= Seq::<u32>::empty());
    while i < v.len()
        invariant
            i <= v@.len(),
            best == largest(v@.take(i as int)),
        decreases v@.len() - i,
    {
        assert(v@.take(i + 1).drop_last() =~= v@.take(i as int));
        assert(v@.take(i + 1).last() == v@[i as int]);
        best = match best {
            Some(m) => if m > v[i] {
                Some(m)
            } else {
                Some(v[i])
            },
            None => Some(v[i]),
        };
        i += 1;
    }
    assert(v@.take(i as int) =~= v@);
    best
}

fn any_login(v: &Vec<u32>, uid_min: u32) -> (r: bool)
    ensures
        r == logged_in(v@, uid_min),
{
    let mut i: usize = 0;
    while i < v.len()
        invariant
            i <= v@.len(),
            forall|k: int| 0 <= k < i ==> #[trigger] v@[k] < uid_min,
        decreases v@.len() - i,
    {
        if v[i] >= uid_min {
            return true;
        }
        i += 1;
    }
    false
}

fn evidence_text(v: &Vec<u32>, uid_min: u32) -> (r: String)
    ensures
        r@ == evidence_for(v@, uid_min),
{
    match largest_of(v) {
        Some(u) => {
            if any_login(v, uid_min) {
                let mut s: String = String::from_str("one of the ");
                push_dec(&mut s, v.len() as u64);
                s.append(" processes holding this socket runs as uid ");
                push_dec(&mut s, u as u64);
                s.append(
                    ", a login account -- sshd drops to the user's uid only after authentication",
                );
                s
            } else {
                let mut s: String = String::from_str(
                    "every process holding this socket still runs as uid ",
                );
                push_dec(&mut s, u as u64);
                s.append(" (");
                push_dec(&mut s, v.len() as u64);
                s.append(
                    " of them). A connection reaches ESTABLISHED before any password is offered, so this may be an unauthenticated attempt rather than a session",
                );
                s
            }
        },
        None => String::from_str(
            "the holding process is not readable, so nothing can be said about whether this connection is authenticated",
        ),
    }
}

fn knows_session(v: &Vec<AdminSession>, peer: &str, port: u16) -> (r: bool)
    ensures
        r == session_known(views(v@), peer@, port),
{
    let ghost all = views(v@);
    let mut i: usize = 0;
    while i < v.len()
        invariant
            i <= v@.len(),
            all == views(v@),
            forall|k: int|
                0 <= k < i ==> !((#[trigger] all[k]).peer == peer@ && all[k].port == port),
        decreases v@.len() - i,
    {
        assert(all[i as int] == v@[i as int]@);
        if same(v[i].peer.as_str(), peer) && v[i].port == port {
            return true;
        }
        i += 1;
    }
    false
}

/// Inbound sessions that might be the operator's, with the evidence for each.
///
/// This is deliberately a list of candidates rather than an answer: there is no
/// reliable way to ask whether a connection is authenticated. What remains is
/// that sshd drops to the logged-in user's uid once authentication succeeds, so
/// a holder running as a real user is good evidence and a root-only holder is
/// not. A TCP connection to port 22 reaches ESTABLISHED before any password is
/// offered, so every brute-force attempt looks like a session.
pub fn admin_candidates(
    flows: &[Flow],
    scan: &Vec<ScannedProcess>,
    ports: EphemeralPorts,
    uid_min: u32,
) -> (r: Vec<AdminSession>)
    ensures
        views(r@) == stable_sort(
            sessions(
                flow_views(flows@),
                flow_views(flows@).len(),
                scanned_views(scan@),
                ports,
                uid_min,
            ),
        ),
{
    let listeners: Listeners = Listeners::from_flows(flows, ports);
    let ghost all = flow_views(flows@);
    let ghost view = scanned_views(scan@);
    let mut out: Vec<AdminSession> = Vec::new();
    let mut i: usize = 0;
    assert(views(out@) =~= sessions(all, 0, view, ports, uid_min));
    while i < flows.len()
        invariant
            i <= flows@.len(),
            all == flow_views(flows@),
            view == scanned_views(scan@),
            listeners@ == listening(all),
            listeners.range() == ports,
            views(out@) == sessions(all, i as nat, view, ports, uid_min),
        decreases flows@.len() - i,
    {
        let f: &Flow = &flows[i];
        assert(all[i as int] == f@);
        if f.socket.state == State::Established && f.direction(&listeners) == Direction::Inbound
            && has_ssh_listener(flows, f.socket.local_port) {
            let peer: String = normalise(f.socket.remote_addr.to_text().as_str());
            if !knows_session(&out, peer.as_str(), f.socket.local_port) {
                let found: Vec<u32> = uids(scan, &holders_of_inode(scan, f.socket.inode));
                let session: AdminSession = AdminSession {
                    peer,
                    port: f.socket.local_port,
                    holder: f.actor(),
                    likely: any_login(&found, uid_min),
                    evidence: evidence_text(&found, uid_min),
                };
                assert(session@ == session_of(f@, view, uid_min));
                let ghost before = out@;
                out.push(session);
                assert(views(out@) =~= views(before).push(session@));
            }
        }
        i += 1;
    }
    assert(all.len() == flows@.len());
    sort(out)
}

// ---------------------------------------------------------------------------
// What is talking
// ---------------------------------------------------------------------------

/// The cgroup path a `/proc/<pid>/cgroup` body gives in the unified hierarchy.
pub open spec fn unified_path(body: Option<Seq<char>>) -> Option<Seq<char>> {
    match first_starting(lines_or_none(body), "0::"@) {
        Some(l) => {
            let path = trim_char(trim_start_str(l, "0::"@), '/');
            if path.len() > 0 {
                Some(path)
            } else {
                None
            }
        },
        None => None,
    }
}

/// The cgroup of the process that holds a row, where we dialled it.
pub open spec fn talking(
    f: FlowView,
    flows: Seq<FlowView>,
    scan: Seq<ScannedView>,
    ports: EphemeralPorts,
) -> Option<Seq<char>> {
    match f.holder {
        Some(h) => if way(f.socket, listening(flows), ports) is Outbound {
            match process(scan, h.pid) {
                Some(p) => unified_path(p.cgroup),
                None => None,
            }
        } else {
            None
        },
        None => None,
    }
}

/// The cgroups that talk, among the first `n` rows.
pub open spec fn talkers(
    flows: Seq<FlowView>,
    n: nat,
    scan: Seq<ScannedView>,
    ports: EphemeralPorts,
) -> Seq<Seq<char>>
    decreases n,
{
    if n == 0 {
        seq![]
    } else {
        let before = talkers(flows, (n - 1) as nat, scan, ports);
        match talking(flows[n - 1], flows, scan, ports) {
            Some(path) => before.push(path),
            None => before,
        }
    }
}

/// A row without the values that repeat the one before them.
pub open spec fn dedup(s: Seq<Seq<char>>) -> Seq<Seq<char>>
    decreases s.len(),
{
    if s.len() == 0 {
        seq![]
    } else {
        let before = dedup(s.drop_last());
        if before.len() > 0 && before.last() == s.last() {
            before
        } else {
            before.push(s.last())
        }
    }
}

fn dedup_texts(v: Vec<String>) -> (r: Vec<String>)
    ensures
        texts(r@) == dedup(texts(v@)),
{
    let ghost all = texts(v@);
    let mut out: Vec<String> = Vec::new();
    let mut i: usize = 0;
    assert(all.take(0) =~= Seq::<Seq<char>>::empty());
    assert(texts(out@) =~= dedup(all.take(0)));
    while i < v.len()
        invariant
            i <= v@.len(),
            all == texts(v@),
            texts(out@) == dedup(all.take(i as int)),
        decreases v@.len() - i,
    {
        assert(all.take(i + 1).drop_last() =~= all.take(i as int));
        assert(all.take(i + 1).last() == v@[i as int]@);
        let n: usize = out.len();
        assert(texts(out@).len() == n);
        let repeats: bool = n > 0 && same(out[n - 1].as_str(), v[i].as_str());
        assert(n > 0 ==> texts(out@).last() == out@[n - 1]@);
        if !repeats {
            let ghost before = out@;
            let s: String = copy(v[i].as_str());
            out.push(s);
            proof {
                lemma_texts_push(before, s);
            }
        }
        i += 1;
    }
    assert(all.take(i as int) =~= all);
    out
}

fn path_in_unified(body: Option<&str>) -> (r: Option<String>)
    ensures
        opt_string(r) == unified_path(opt_text(body)),
{
    let ls: Vec<String> = lines_if(body);
    match line_starting(&ls, "0::") {
        Some(l) => {
            let path: String = trimmed_char(trimmed_start_str(l.as_str(), "0::").as_str(), '/');
            let empty: bool = same(path.as_str(), "");
            proof {
                reveal_strlit("");
                if path@.len() == 0 {
                    assert(path@ =~= ""@);
                }
            }
            if empty {
                None
            } else {
                Some(path)
            }
        },
        None => None,
    }
}

/// The cgroups that currently own a connection leaving this machine.
///
/// What someone wants to route is what is talking right now, so an editor can
/// offer those first.
pub fn active_cgroups(flows: &[Flow], scan: &Vec<ScannedProcess>, ports: EphemeralPorts) -> (r: Vec<
    String,
>)
    ensures
        texts(r@) == dedup(
            stable_sort(
                talkers(
                    flow_views(flows@),
                    flow_views(flows@).len(),
                    scanned_views(scan@),
                    ports,
                ),
            ),
        ),
{
    let listeners: Listeners = Listeners::from_flows(flows, ports);
    let ghost all = flow_views(flows@);
    let ghost view = scanned_views(scan@);
    let mut out: Vec<String> = Vec::new();
    let mut i: usize = 0;
    assert(texts(out@) =~= talkers(all, 0, view, ports));
    while i < flows.len()
        invariant
            i <= flows@.len(),
            all == flow_views(flows@),
            view == scanned_views(scan@),
            listeners@ == listening(all),
            listeners.range() == ports,
            texts(out@) == talkers(all, i as nat, view, ports),
        decreases flows@.len() - i,
    {
        let f: &Flow = &flows[i];
        assert(all[i as int] == f@);
        if f.direction(&listeners) == Direction::Outbound {
            if let Some(h) = &f.holder {
                if let Some(k) = find_process(scan, h.pid) {
                    if let Some(path) = path_in_unified(borrow_opt(&scan[k].cgroup)) {
                        let ghost before = out@;
                        out.push(path);
                        proof {
                            lemma_texts_push(before, path);
                        }
                    }
                }
            }
        }
        i += 1;
    }
    assert(all.len() == flows@.len());
    assert(views(out@) =~= texts(out@));
    let sorted: Vec<String> = sort(out);
    assert(views(sorted@) =~= texts(sorted@));
    dedup_texts(sorted)
}

// ---------------------------------------------------------------------------
// The host
// ---------------------------------------------------------------------------

/// What was read of a machine for a policy to be compiled against.
#[derive(Debug)]
pub struct HostFacts {
    /// The entries of `/proc`.
    pub scan: Vec<ScannedProcess>,
    /// The range the kernel hands out for outgoing connections.
    pub ports: EphemeralPorts,
    /// The texts of `/etc/login.defs` and the torrc, where they could be read.
    pub login_defs: Option<String>,
    pub torrc: Option<String>,
    /// The names under `/sys/class/net`.
    pub interfaces: Vec<String>,
    /// The names under `/proc/sys/net/ipv4/conf`, with their `rp_filter`.
    pub rp_filter: Vec<(String, String)>,
    /// The directories under the two slices of the cgroup tree.
    pub system_slice: Vec<CgroupDir>,
    pub user_slice: Vec<CgroupDir>,
}

/// What [`HostFacts`] say.
pub struct HostFactsView {
    pub scan: Seq<ScannedView>,
    pub ports: EphemeralPorts,
    pub login_defs: Option<Seq<char>>,
    pub torrc: Option<Seq<char>>,
    pub interfaces: Seq<Seq<char>>,
    pub rp_filter: Seq<(Seq<char>, Seq<char>)>,
    pub system_slice: Seq<CgroupDirView>,
    pub user_slice: Seq<CgroupDirView>,
}

impl View for HostFacts {
    type V = HostFactsView;

    open spec fn view(&self) -> HostFactsView {
        HostFactsView {
            scan: scanned_views(self.scan@),
            ports: self.ports,
            login_defs: opt_string(self.login_defs),
            torrc: opt_string(self.torrc),
            interfaces: texts(self.interfaces@),
            rp_filter: views(self.rp_filter@),
            system_slice: views(self.system_slice@),
            user_slice: views(self.user_slice@),
        }
    }
}

/// The first process called `tor` that holds a socket.
pub open spec fn tor_pid(flows: Seq<FlowView>) -> Option<u32>
    decreases flows.len(),
{
    if flows.len() == 0 {
        None
    } else {
        match flows[0].holder {
            Some(h) if h.comm == "tor"@ => Some(h.pid),
            _ => tor_pid(flows.skip(1)),
        }
    }
}

/// The addresses of the sessions that are likely somebody's.
pub open spec fn likely_peers(s: Seq<SessionView>) -> Seq<Seq<char>>
    decreases s.len(),
{
    if s.len() == 0 {
        seq![]
    } else if s.last().likely {
        likely_peers(s.drop_last()).push(s.last().peer)
    } else {
        likely_peers(s.drop_last())
    }
}

/// The candidates among the rows of a machine.
pub open spec fn candidates(facts: HostFactsView, flows: Seq<FlowView>) -> Seq<SessionView> {
    stable_sort(
        sessions(
            flows,
            flows.len(),
            facts.scan,
            facts.ports,
            uid_min_among(lines_or_none(facts.login_defs)),
        ),
    )
}

/// The facts about a host, out of what was read of it.
///
/// Tor's uid is that of the process, not that of one of its sockets: a daemon
/// that binds a privileged port before dropping privileges keeps holding a
/// socket that is root's.
pub open spec fn host_of(facts: HostFactsView, flows: Seq<FlowView>) -> HostView {
    HostView {
        interfaces: stable_sort(facts.interfaces),
        tor_trans_port: port_among(lines_or_none(facts.torrc), "TransPort"@),
        tor_dns_port: port_among(lines_or_none(facts.torrc), "DNSPort"@),
        tor_uid: match tor_pid(flows) {
            Some(pid) => uid_of(facts.scan, pid),
            None => None,
        },
        admin_peers: likely_peers(candidates(facts, flows)),
        tunnel_endpoints: seq![],
        rp_filter: stable_sort(filters_among(facts.rp_filter)),
        cgroups: stable_sort(
            slice_paths("system.slice"@, facts.system_slice) + slice_paths(
                "user.slice"@,
                facts.user_slice,
            ),
        ),
    }
}

fn find_tor(flows: &[Flow]) -> (r: Option<u32>)
    ensures
        r == tor_pid(flow_views(flows@)),
{
    let ghost all = flow_views(flows@);
    let mut i: usize = 0;
    assert(all.skip(0) =~= all);
    while i < flows.len()
        invariant
            i <= flows@.len(),
            all == flow_views(flows@),
            tor_pid(all) == tor_pid(all.skip(i as int)),
        decreases flows@.len() - i,
    {
        assert(all.skip(i as int)[0] == flows@[i as int]@);
        if let Some(h) = &flows[i].holder {
            if same(h.comm.as_str(), "tor") {
                return Some(h.pid);
            }
        }
        assert(all.skip(i as int).skip(1) =~= all.skip(i + 1));
        i += 1;
    }
    None
}

fn peers_of(v: &Vec<AdminSession>) -> (r: Vec<String>)
    ensures
        texts(r@) == likely_peers(views(v@)),
{
    let ghost all = views(v@);
    let mut out: Vec<String> = Vec::new();
    let mut i: usize = 0;
    assert(all.take(0) =~= Seq::<SessionView>::empty());
    assert(texts(out@) =~= likely_peers(all.take(0)));
    while i < v.len()
        invariant
            i <= v@.len(),
            all == views(v@),
            texts(out@) == likely_peers(all.take(i as int)),
        decreases v@.len() - i,
    {
        assert(all.take(i + 1).drop_last() =~= all.take(i as int));
        assert(all.take(i + 1).last() == v@[i as int]@);
        if v[i].likely {
            let ghost before = out@;
            let s: String = copy(v[i].peer.as_str());
            out.push(s);
            proof {
                lemma_texts_push(before, s);
            }
        }
        i += 1;
    }
    assert(all.take(i as int) =~= all);
    out
}

/// Everything about a host that a policy depends on.
pub fn host(facts: &HostFacts, flows: &[Flow]) -> (r: Host)
    ensures
        r@ == host_of(facts@, flow_views(flows@)),
{
    let (tor_trans_port, tor_dns_port): (Option<u16>, Option<u16>) = tor_ports(
        borrow_opt(&facts.torrc),
    );
    let tor_uid: Option<u32> = match find_tor(flows) {
        Some(pid) => uid_by_pid(&facts.scan, pid),
        None => None,
    };
    let least: u32 = uid_min(borrow_opt(&facts.login_defs));
    let found: Vec<AdminSession> = admin_candidates(flows, &facts.scan, facts.ports, least);
    let names: Vec<String> = crate::text::copies(&facts.interfaces);
    assert(views(names@) =~= texts(names@));
    let interfaces: Vec<String> = interfaces(names);
    assert(views(interfaces@) =~= texts(interfaces@));
    let filters: Vec<(String, u8)> = rp_filter(&facts.rp_filter);
    assert(filter_views(filters@) =~= views(filters@));
    let h: Host = Host {
        interfaces,
        tor_trans_port,
        tor_dns_port,
        tor_uid,
        admin_peers: peers_of(&found),
        tunnel_endpoints: Vec::new(),
        rp_filter: filters,
        cgroups: cgroups(&facts.system_slice, &facts.user_slice),
    };
    assert(h@.tunnel_endpoints =~= Seq::<Seq<char>>::empty());
    h
}

// ---------------------------------------------------------------------------
// Laws
// ---------------------------------------------------------------------------

/// A candidate is never listed without its peer being in an open connection
/// into the ssh daemon: knocking on the port is not enough.
pub proof fn a_scan_cannot_get_itself_listed(
    flows: Seq<FlowView>,
    n: nat,
    scan: Seq<ScannedView>,
    ports: EphemeralPorts,
    uid_min: u32,
    i: int,
)
    requires
        n <= flows.len(),
        0 <= i < sessions(flows, n, scan, ports, uid_min).len(),
    ensures
        exists|k: int|
            0 <= k < n && is_session(#[trigger] flows[k], flows, ports) && sessions(
                flows,
                n,
                scan,
                ports,
                uid_min,
            )[i] == session_of(flows[k], scan, uid_min),
    decreases n,
{
    let before = sessions(flows, (n - 1) as nat, scan, ports, uid_min);
    if i < before.len() {
        a_scan_cannot_get_itself_listed(flows, (n - 1) as nat, scan, ports, uid_min, i);
    }
}

/// Everybody with an open connection into the ssh daemon is listed.
pub proof fn every_session_is_listed(
    flows: Seq<FlowView>,
    n: nat,
    scan: Seq<ScannedView>,
    ports: EphemeralPorts,
    uid_min: u32,
    k: int,
)
    requires
        n <= flows.len(),
        0 <= k < n,
        is_session(flows[k], flows, ports),
    ensures
        session_known(
            sessions(flows, n, scan, ports, uid_min),
            normal(flows[k].socket.remote_addr.spelling()),
            flows[k].socket.local_port,
        ),
    decreases n,
{
    let before = sessions(flows, (n - 1) as nat, scan, ports, uid_min);
    let all = sessions(flows, n, scan, ports, uid_min);
    let peer = normal(flows[k].socket.remote_addr.spelling());
    let port = flows[k].socket.local_port;
    if k < n - 1 {
        every_session_is_listed(flows, (n - 1) as nat, scan, ports, uid_min, k);
    }
    if session_known(before, peer, port) {
        let i = choose|i: int|
            0 <= i < before.len() && (#[trigger] before[i]).peer == peer && before[i].port == port;
        assert(all[i] == before[i]);
    } else {
        assert(all[all.len() - 1] == session_of(flows[k], scan, uid_min));
    }
}

/// A candidate is likely exactly where one of the processes that hold its
/// socket runs as a login account, and the evidence says so.
pub proof fn a_verdict_carries_its_evidence(f: FlowView, scan: Seq<ScannedView>, uid_min: u32)
    ensures
        ({
            let uids = uids_of(scan, holders(scan, f.socket.inode));
            let s = session_of(f, scan, uid_min);
            &&& s.likely <==> logged_in(uids, uid_min)
            &&& s.evidence == evidence_for(uids, uid_min)
            &&& uids.len() == 0 ==> !s.likely
        }),
{
}

/// An unset port is no port: only a line for the key gives one.
pub proof fn an_unset_port_is_none(ls: Seq<Seq<char>>, key: Seq<char>)
    ensures
        port_among(ls, key) is None <==> forall|i: int|
            0 <= i < ls.len() ==> port_on(#[trigger] ls[i], key) is None,
    decreases ls.len(),
{
    if ls.len() > 0 {
        let t = ls.skip(1);
        an_unset_port_is_none(t, key);
        if port_on(ls[0], key) is None {
            if port_among(t, key) is None {
                assert forall|i: int| 0 <= i < ls.len() implies port_on(
                    #[trigger] ls[i],
                    key,
                ) is None by {
                    if i > 0 {
                        assert(t[i - 1] == ls[i]);
                    }
                }
            } else {
                let k = choose|k: int| 0 <= k < t.len() && port_on(#[trigger] t[k], key) is Some;
                assert(ls[k + 1] == t[k]);
            }
        }
    }
}

proof fn lemma_sorted_members<T: Ranked>(s: Seq<T>, x: T)
    ensures
        stable_sort(s).contains(x) <==> s.contains(x),
{
    broadcast use vstd::seq_lib::group_to_multiset_ensures;

    sorting_keeps_every_value(s);
    assert(stable_sort(s).contains(x) <==> stable_sort(s).to_multiset().count(x) > 0);
    assert(s.contains(x) <==> s.to_multiset().count(x) > 0);
}

proof fn lemma_likely_peer(s: Seq<SessionView>, i: int)
    requires
        0 <= i < likely_peers(s).len(),
    ensures
        exists|j: int| 0 <= j < s.len() && (#[trigger] s[j]).likely && s[j].peer == likely_peers(s)[i],
    decreases s.len(),
{
    let t = s.drop_last();
    if i < likely_peers(t).len() {
        lemma_likely_peer(t, i);
        let j = choose|j: int|
            0 <= j < t.len() && (#[trigger] t[j]).likely && t[j].peer == likely_peers(t)[i];
        assert(s[j] == t[j]);
    } else {
        assert(s[s.len() - 1].likely);
    }
}

/// Whoever a host names as its administrator is at the other end of an open
/// connection into the ssh daemon, held by a process of a login account.
/// Nobody gets there by scanning.
pub proof fn an_administrator_has_an_open_session(
    facts: HostFactsView,
    flows: Seq<FlowView>,
    i: int,
)
    requires
        0 <= i < host_of(facts, flows).admin_peers.len(),
    ensures
        exists|k: int|
            0 <= k < flows.len() && is_session(#[trigger] flows[k], flows, facts.ports) && normal(
                flows[k].socket.remote_addr.spelling(),
            ) == host_of(facts, flows).admin_peers[i] && logged_in(
                uids_of(facts.scan, holders(facts.scan, flows[k].socket.inode)),
                uid_min_among(lines_or_none(facts.login_defs)),
            ),
{
    let least = uid_min_among(lines_or_none(facts.login_defs));
    let found = candidates(facts, flows);
    let all = sessions(flows, flows.len(), facts.scan, facts.ports, least);
    lemma_likely_peer(found, i);
    let j = choose|j: int|
        0 <= j < found.len() && (#[trigger] found[j]).likely && found[j].peer == likely_peers(found)[i];
    assert(found.contains(found[j]));
    lemma_sorted_members(all, found[j]);
    let m = choose|m: int| 0 <= m < all.len() && all[m] == found[j];
    a_scan_cannot_get_itself_listed(flows, flows.len(), facts.scan, facts.ports, least, m);
}

/// Those who have probably logged in are offered first.
pub proof fn the_likely_come_first(facts: HostFactsView, flows: Seq<FlowView>, i: int, j: int)
    requires
        0 <= i < j < candidates(facts, flows).len(),
        candidates(facts, flows)[j].likely,
    ensures
        candidates(facts, flows)[i].likely,
{
    let least = uid_min_among(lines_or_none(facts.login_defs));
    sorting_keeps_every_value(sessions(flows, flows.len(), facts.scan, facts.ports, least));
    let c = candidates(facts, flows);
    assert(c[i].le(c[j]));
}

proof fn lemma_dedup(s: Seq<Seq<char>>)
    requires
        sorted(s),
    ensures
        s.len() > 0 ==> dedup(s).len() > 0 && dedup(s).last() == s.last(),
        forall|x: Seq<char>| dedup(s).contains(x) <==> s.contains(x),
        forall|i: int, j: int|
            0 <= i < j < dedup(s).len() ==> #[trigger] dedup(s)[i] != #[trigger] dedup(s)[j],
    decreases s.len(),
{
    if s.len() > 0 {
        let t = s.drop_last();
        assert(sorted(t)) by {
            assert forall|i: int, j: int| 0 <= i <= j < t.len() implies #[trigger] t[i].le(
                #[trigger] t[j],
            ) by {
                assert(s[i].le(s[j]));
            }
        }
        lemma_dedup(t);
        let d = dedup(t);
        let x = s.last();
        assert forall|y: Seq<char>| dedup(s).contains(y) <==> s.contains(y) by {
            if s.contains(y) {
                let k = choose|k: int| 0 <= k < s.len() && s[k] == y;
                if k < t.len() {
                    assert(t[k] == y);
                    assert(t.contains(y));
                    let m = choose|m: int| 0 <= m < d.len() && d[m] == y;
                    assert(dedup(s)[m] == y);
                } else {
                    assert(dedup(s)[dedup(s).len() - 1] == y);
                }
            }
            if dedup(s).contains(y) {
                let m = choose|m: int| 0 <= m < dedup(s).len() && dedup(s)[m] == y;
                if m < d.len() {
                    assert(dedup(s)[m] == d[m]);
                    assert(d.contains(y));
                    assert(t.contains(y));
                    let k = choose|k: int| 0 <= k < t.len() && t[k] == y;
                    assert(s[k] == y);
                } else {
                    assert(s[s.len() - 1] == y);
                }
            }
        }
        if dedup(s).len() > d.len() {
            assert forall|i: int| 0 <= i < d.len() implies #[trigger] d[i] != x by {
                if d[i] == x {
                    assert(d.contains(x));
                    assert(t.contains(x));
                    let k = choose|k: int| 0 <= k < t.len() && t[k] == x;
                    assert(s[k] == t[k]);
                    assert(s[t.len() - 1] == t[t.len() - 1]);
                    assert(s[k].le(s[t.len() - 1]));
                    assert(s[t.len() - 1].le(s[s.len() - 1]));
                    lemma_lex_antisymmetric(x, t.last());
                }
            }
        }
    }
}

/// Every cgroup that talks is offered, once.
pub proof fn what_talks_is_offered_once(
    flows: Seq<FlowView>,
    scan: Seq<ScannedView>,
    ports: EphemeralPorts,
    path: Seq<char>,
)
    ensures
        ({
            let all = talkers(flows, flows.len(), scan, ports);
            let offered = dedup(stable_sort(all));
            &&& offered.contains(path) <==> all.contains(path)
            &&& forall|i: int, j: int|
                0 <= i < j < offered.len() ==> #[trigger] offered[i] != #[trigger] offered[j]
        }),
{
    let all = talkers(flows, flows.len(), scan, ports);
    sorting_keeps_every_value(all);
    lemma_sorted_members(all, path);
    lemma_dedup(stable_sort(all));
}

/// The peer of a session is written as an address, the one its packets carry
/// on the wire, and excluded in the family of those packets.
pub proof fn a_session_is_excluded_by_the_address_it_comes_from(a: IpAddr, shown: Seq<char>)
    ensures
        read_addr(normal(a.spelling())) == Some(a.flat()),
        destined(normal(a.spelling()), shown) == (match a.flat() {
            IpAddr::V4(..) => "ip daddr "@ + a.flat().spelling(),
            IpAddr::V6(..) => "ip6 daddr "@ + a.flat().spelling(),
        }),
{
    reveal_strlit("::ffff:");
    match a.mapped() {
        Some(m) => {
            let s = a.spelling();
            assert(s == "::ffff:"@ + m.spelling());
            assert(s.subrange(0, 7) =~= "::ffff:"@);
            assert(s.skip(7) =~= m.spelling());
            an_address_reads_back(m);
            lemma_v4_spelling_reads(m);
        },
        None => {
            lemma_no_v4_inside(a);
            an_address_reads_back(a);
        },
    }
}

// ---------------------------------------------------------------------------
// What is read, and what is made of it
// ---------------------------------------------------------------------------

/// Whether a process is one of those that hold a socket: one of its descriptors
/// is `socket:[<inode>]`.
pub open spec fn keeps_open(p: ScannedView, inode: u64) -> bool {
    inode != 0 && p.pid() is Some && p.links.contains("socket:["@ + dec(inode as nat) + "]"@)
}

proof fn lemma_holding(scan: Seq<ScannedView>, target: Seq<char>, pid: u32)
    ensures
        holding(scan, target).contains(pid) <==> exists|i: int|
            0 <= i < scan.len() && names_socket(#[trigger] scan[i], target) && scan[i].pid()
                == Some(pid),
    decreases scan.len(),
{
    if scan.len() > 0 {
        let t = scan.drop_last();
        lemma_holding(t, target, pid);
        assert(scan[scan.len() - 1] == scan.last());
        crate::order::lemma_push_contains(holding(t, target), scan.last().pid()->0, pid);
        if exists|i: int|
            0 <= i < t.len() && names_socket(#[trigger] t[i], target) && t[i].pid() == Some(pid) {
            let i = choose|i: int|
                0 <= i < t.len() && names_socket(#[trigger] t[i], target) && t[i].pid() == Some(
                    pid,
                );
            assert(scan[i] == t[i]);
        }
        if exists|i: int|
            0 <= i < scan.len() && names_socket(#[trigger] scan[i], target) && scan[i].pid()
                == Some(pid) {
            let i = choose|i: int|
                0 <= i < scan.len() && names_socket(#[trigger] scan[i], target) && scan[i].pid()
                    == Some(pid);
            if i < t.len() {
                assert(t[i] == scan[i]);
            }
        }
    }
}

/// The processes that hold a socket are those of which a descriptor is that
/// socket, all of them, in the order of their pids. A socket without an inode is
/// held by nobody.
pub proof fn every_holder_is_found(scan: Seq<ScannedView>, inode: u64, pid: u32)
    ensures
        holders(scan, inode).contains(pid) <==> exists|i: int|
            0 <= i < scan.len() && keeps_open(#[trigger] scan[i], inode) && scan[i].pid() == Some(
                pid,
            ),
        forall|i: int, j: int|
            0 <= i <= j < holders(scan, inode).len() ==> #[trigger] holders(scan, inode)[i]
                <= #[trigger] holders(scan, inode)[j],
{
    let target = socket_link(inode);
    let all = holding(scan, target);
    lemma_holding(scan, target, pid);
    lemma_sorted_members(all, pid);
    sorting_keeps_every_value(all);
    if inode != 0 {
        let h = holders(scan, inode);
        assert forall|i: int, j: int| 0 <= i <= j < h.len() implies #[trigger] h[i]
            <= #[trigger] h[j] by {
            assert(h[i].le(h[j]));
        }
        if all.contains(pid) {
            let i = choose|i: int|
                0 <= i < scan.len() && names_socket(#[trigger] scan[i], target) && scan[i].pid()
                    == Some(pid);
            assert(keeps_open(scan[i], inode));
        }
        if exists|i: int|
            0 <= i < scan.len() && keeps_open(#[trigger] scan[i], inode) && scan[i].pid() == Some(
                pid,
            ) {
            let i = choose|i: int|
                0 <= i < scan.len() && keeps_open(#[trigger] scan[i], inode) && scan[i].pid()
                    == Some(pid);
            assert(names_socket(scan[i], target));
        }
    }
}

proof fn lemma_uids(scan: Seq<ScannedView>, pids: Seq<u32>, u: u32)
    ensures
        uids_of(scan, pids).contains(u) <==> exists|i: int|
            0 <= i < pids.len() && uid_of(scan, #[trigger] pids[i]) == Some(u),
    decreases pids.len(),
{
    if pids.len() > 0 {
        let t = pids.drop_last();
        lemma_uids(scan, t, u);
        assert(pids[pids.len() - 1] == pids.last());
        if let Some(v) = uid_of(scan, pids.last()) {
            crate::order::lemma_push_contains(uids_of(scan, t), v, u);
        }
        if exists|i: int| 0 <= i < t.len() && uid_of(scan, #[trigger] t[i]) == Some(u) {
            let i = choose|i: int| 0 <= i < t.len() && uid_of(scan, #[trigger] t[i]) == Some(u);
            assert(pids[i] == t[i]);
        }
        if exists|i: int| 0 <= i < pids.len() && uid_of(scan, #[trigger] pids[i]) == Some(u) {
            let i = choose|i: int|
                0 <= i < pids.len() && uid_of(scan, #[trigger] pids[i]) == Some(u);
            if i < t.len() {
                assert(t[i] == pids[i]);
            }
        }
    }
}

/// Whether a socket is held by a process that runs as a uid.
pub open spec fn held_as(scan: Seq<ScannedView>, inode: u64, u: u32) -> bool {
    exists|i: int|
        0 <= i < scan.len() && keeps_open(#[trigger] scan[i], inode) && uid_of(
            scan,
            scan[i].pid()->0,
        ) == Some(u)
}

proof fn lemma_held_as(scan: Seq<ScannedView>, inode: u64, u: u32)
    ensures
        uids_of(scan, holders(scan, inode)).contains(u) <==> held_as(scan, inode, u),
{
    let h = holders(scan, inode);
    lemma_uids(scan, h, u);
    if held_as(scan, inode, u) {
        let i = choose|i: int|
            0 <= i < scan.len() && keeps_open(#[trigger] scan[i], inode) && uid_of(
                scan,
                scan[i].pid()->0,
            ) == Some(u);
        let pid = scan[i].pid()->0;
        every_holder_is_found(scan, inode, pid);
        let k = choose|k: int| 0 <= k < h.len() && h[k] == pid;
        assert(uid_of(scan, h[k]) == Some(u));
    }
    if exists|i: int| 0 <= i < h.len() && uid_of(scan, #[trigger] h[i]) == Some(u) {
        let k = choose|k: int| 0 <= k < h.len() && uid_of(scan, #[trigger] h[k]) == Some(u);
        assert(h.contains(h[k]));
        every_holder_is_found(scan, inode, h[k]);
        let i = choose|i: int|
            0 <= i < scan.len() && keeps_open(#[trigger] scan[i], inode) && scan[i].pid() == Some(
                h[k],
            );
        assert(held_as(scan, inode, u));
    }
}

/// A session is likely exactly where some process that holds its socket runs as
/// an account that is not below the first login account, however far above it.
pub proof fn a_login_is_told_by_the_uids_that_hold_the_socket(
    f: FlowView,
    scan: Seq<ScannedView>,
    uid_min: u32,
)
    ensures
        session_of(f, scan, uid_min).likely <==> exists|u: u32|
            u >= uid_min && #[trigger] held_as(scan, f.socket.inode, u),
{
    let uids = uids_of(scan, holders(scan, f.socket.inode));
    if session_of(f, scan, uid_min).likely {
        let i = choose|i: int| 0 <= i < uids.len() && #[trigger] uids[i] >= uid_min;
        assert(uids.contains(uids[i]));
        lemma_held_as(scan, f.socket.inode, uids[i]);
    }
    if exists|u: u32| u >= uid_min && #[trigger] held_as(scan, f.socket.inode, u) {
        let u = choose|u: u32| u >= uid_min && #[trigger] held_as(scan, f.socket.inode, u);
        lemma_held_as(scan, f.socket.inode, u);
        let i = choose|i: int| 0 <= i < uids.len() && uids[i] == u;
        assert(uids[i] >= uid_min);
    }
}

/// A verdict of likely survives a lower bar, and a verdict of unlikely a higher
/// one.
pub proof fn a_lower_bar_lets_more_in(f: FlowView, scan: Seq<ScannedView>, low: u32, high: u32)
    requires
        low <= high,
    ensures
        session_of(f, scan, high).likely ==> session_of(f, scan, low).likely,
        session_of(f, scan, high).peer == session_of(f, scan, low).peer,
        session_of(f, scan, high).port == session_of(f, scan, low).port,
{
    a_login_is_told_by_the_uids_that_hold_the_socket(f, scan, low);
    a_login_is_told_by_the_uids_that_hold_the_socket(f, scan, high);
}

proof fn lemma_largest(s: Seq<u32>)
    ensures
        largest(s) is None <==> s.len() == 0,
        largest(s) matches Some(m) ==> s.contains(m) && forall|i: int|
            0 <= i < s.len() ==> #[trigger] s[i] <= m,
    decreases s.len(),
{
    if s.len() > 0 {
        let t = s.drop_last();
        lemma_largest(t);
        assert(s[s.len() - 1] == s.last());
        if let Some(m) = largest(t) {
            let k = choose|k: int| 0 <= k < t.len() && t[k] == m;
            assert(s[k] == m);
        }
        let m = largest(s)->0;
        assert forall|i: int| 0 <= i < s.len() implies #[trigger] s[i] <= m by {
            if i < t.len() {
                assert(t[i] == s[i]);
            }
        }
    }
}

/// The evidence names the highest uid that holds the socket and how many
/// processes could be read, and says which of the two verdicts it is; where none
/// could be read, it says so.
pub proof fn the_evidence_names_the_highest_uid(
    f: FlowView,
    scan: Seq<ScannedView>,
    uid_min: u32,
)
    ensures
        ({
            let n = uids_of(scan, holders(scan, f.socket.inode)).len();
            let s = session_of(f, scan, uid_min);
            &&& n == 0 <==> s.evidence
                == "the holding process is not readable, so nothing can be said about whether this connection is authenticated"@
            &&& n == 0 ==> !s.likely
            &&& n > 0 ==> exists|u: u32| #[trigger]
                held_as(scan, f.socket.inode, u) && (forall|v: u32| #[trigger]
                    held_as(scan, f.socket.inode, v) ==> v <= u) && (s.likely <==> u >= uid_min)
                    && (s.likely ==> s.evidence == "one of the "@ + dec(n)
                    + " processes holding this socket runs as uid "@ + dec(u as nat)
                    + ", a login account -- sshd drops to the user's uid only after authentication"@)
                    && (!s.likely ==> s.evidence
                    == "every process holding this socket still runs as uid "@ + dec(u as nat)
                    + " ("@ + dec(n)
                    + " of them). A connection reaches ESTABLISHED before any password is offered, so this may be an unauthenticated attempt rather than a session"@)
        }),
{
    let uids = uids_of(scan, holders(scan, f.socket.inode));
    let s = session_of(f, scan, uid_min);
    lemma_largest(uids);
    reveal_strlit(
        "the holding process is not readable, so nothing can be said about whether this connection is authenticated",
    );
    reveal_strlit("one of the ");
    reveal_strlit("every process holding this socket still runs as uid ");
    if uids.len() > 0 {
        let u = largest(uids)->0;
        lemma_held_as(scan, f.socket.inode, u);
        assert forall|v: u32| #[trigger] held_as(scan, f.socket.inode, v) implies v <= u by {
            lemma_held_as(scan, f.socket.inode, v);
            let i = choose|i: int| 0 <= i < uids.len() && uids[i] == v;
            assert(uids[i] <= u);
        }
        assert(s.likely <==> u >= uid_min) by {
            if s.likely {
                let i = choose|i: int| 0 <= i < uids.len() && #[trigger] uids[i] >= uid_min;
                assert(uids[i] <= u);
            } else {
                let i = choose|i: int| 0 <= i < uids.len() && uids[i] == u;
                assert(!(uids[i] >= uid_min));
            }
        }
        assert(s.evidence[0] == 'o' || s.evidence[0] == 'e');
    }
}

/// Whether a row is an open connection, from outside, into a port on which the
/// ssh daemon listens.
pub open spec fn into_sshd(f: FlowView, flows: Seq<FlowView>, ports: EphemeralPorts) -> bool {
    &&& f.socket.state is Established
    &&& way(f.socket, listening(flows), ports) is Inbound
    &&& exists|i: int|
        0 <= i < flows.len() && (#[trigger] flows[i]).socket.state is Listen
            && flows[i].socket.local_port == f.socket.local_port && flows[i].holder is Some
            && flows[i].holder->0.comm.len() >= 4 && flows[i].holder->0.comm.take(4) == "sshd"@
}

/// A session is an open connection into the ssh daemon, wherever it listens.
pub proof fn a_session_is_an_open_connection_into_sshd(
    f: FlowView,
    flows: Seq<FlowView>,
    ports: EphemeralPorts,
)
    ensures
        is_session(f, flows, ports) <==> into_sshd(f, flows, ports),
{
    let port = f.socket.local_port;
    reveal_strlit("sshd");
    assert forall|i: int| 0 <= i < flows.len() implies ssh_listener(#[trigger] flows[i], port) == (
    flows[i].socket.state is Listen && flows[i].socket.local_port == port && flows[i].holder is Some
        && flows[i].holder->0.comm.len() >= 4 && flows[i].holder->0.comm.take(4) == "sshd"@) by {
        if let Some(h) = flows[i].holder {
            if h.comm.len() >= 4 {
                assert(h.comm.subrange(0, 4) =~= h.comm.take(4));
            }
        }
    }
    if is_session(f, flows, ports) {
        let i = choose|i: int| 0 <= i < flows.len() && ssh_listener(#[trigger] flows[i], port);
        assert(flows[i].socket.state is Listen);
    }
    if into_sshd(f, flows, ports) {
        let i = choose|i: int|
            0 <= i < flows.len() && (#[trigger] flows[i]).socket.state is Listen
                && flows[i].socket.local_port == port && flows[i].holder is Some
                && flows[i].holder->0.comm.len() >= 4 && flows[i].holder->0.comm.take(4)
                == "sshd"@;
        assert(ssh_listener(flows[i], port));
    }
}

proof fn lemma_likely_listed(s: Seq<SessionView>, j: int)
    requires
        0 <= j < s.len(),
        s[j].likely,
    ensures
        likely_peers(s).contains(s[j].peer),
    decreases s.len(),
{
    let t = s.drop_last();
    if j < t.len() {
        assert(t[j] == s[j]);
        lemma_likely_listed(t, j);
    }
    crate::order::lemma_push_contains(likely_peers(t), s.last().peer, s[j].peer);
}

/// Every candidate that is likely is protected, and nobody else is.
pub proof fn the_likely_are_protected(facts: HostFactsView, flows: Seq<FlowView>, peer: Seq<char>)
    ensures
        host_of(facts, flows).admin_peers.contains(peer) <==> exists|j: int|
            0 <= j < candidates(facts, flows).len() && (#[trigger] candidates(facts, flows)[j]).likely
                && candidates(facts, flows)[j].peer == peer,
{
    let c = candidates(facts, flows);
    let p = likely_peers(c);
    if p.contains(peer) {
        let i = choose|i: int| 0 <= i < p.len() && p[i] == peer;
        lemma_likely_peer(c, i);
    }
    if exists|j: int| 0 <= j < c.len() && (#[trigger] c[j]).likely && c[j].peer == peer {
        let j = choose|j: int| 0 <= j < c.len() && (#[trigger] c[j]).likely && c[j].peer == peer;
        lemma_likely_listed(c, j);
    }
}

/// Whoever is logged in, over a connection of their own, is protected: where no
/// other row has the same peer and port, an open connection into the ssh daemon
/// that a login account holds puts its peer among the administrators.
pub proof fn who_is_logged_in_is_protected(
    facts: HostFactsView,
    flows: Seq<FlowView>,
    k: int,
    u: u32,
)
    requires
        0 <= k < flows.len(),
        into_sshd(flows[k], flows, facts.ports),
        held_as(facts.scan, flows[k].socket.inode, u),
        u >= uid_min_among(lines_or_none(facts.login_defs)),
        forall|j: int|
            0 <= j < flows.len() && j != k && into_sshd(#[trigger] flows[j], flows, facts.ports)
                ==> flows[j].socket.local_port != flows[k].socket.local_port || normal(
                flows[j].socket.remote_addr.spelling(),
            ) != normal(flows[k].socket.remote_addr.spelling()),
    ensures
        host_of(facts, flows).admin_peers.contains(
            normal(flows[k].socket.remote_addr.spelling()),
        ),
{
    let least = uid_min_among(lines_or_none(facts.login_defs));
    let peer = normal(flows[k].socket.remote_addr.spelling());
    let port = flows[k].socket.local_port;
    let all = sessions(flows, flows.len(), facts.scan, facts.ports, least);
    let c = candidates(facts, flows);
    a_session_is_an_open_connection_into_sshd(flows[k], flows, facts.ports);
    every_session_is_listed(flows, flows.len(), facts.scan, facts.ports, least, k);
    let i = choose|i: int|
        0 <= i < all.len() && (#[trigger] all[i]).peer == peer && all[i].port == port;
    a_scan_cannot_get_itself_listed(flows, flows.len(), facts.scan, facts.ports, least, i);
    let j = choose|j: int|
        0 <= j < flows.len() && is_session(#[trigger] flows[j], flows, facts.ports) && all[i]
            == session_of(flows[j], facts.scan, least);
    a_session_is_an_open_connection_into_sshd(flows[j], flows, facts.ports);
    assert(j == k);
    a_login_is_told_by_the_uids_that_hold_the_socket(flows[k], facts.scan, least);
    assert(all[i].likely);
    assert(all.contains(all[i]));
    lemma_sorted_members(all, all[i]);
    let m = choose|m: int| 0 <= m < c.len() && c[m] == all[i];
    assert(c[m].likely && c[m].peer == peer);
    the_likely_are_protected(facts, flows, peer);
}

/// A candidate is told of as its row says: where it comes from, in the spelling
/// of a packet's address, the port it came to, and who holds it.
pub proof fn a_candidate_is_told_of_as_its_row_says(
    f: FlowView,
    scan: Seq<ScannedView>,
    uid_min: u32,
)
    ensures
        read_addr(session_of(f, scan, uid_min).peer) == Some(f.socket.remote_addr.flat()),
        session_of(f, scan, uid_min).port == f.socket.local_port,
        f.holder is None ==> session_of(f, scan, uid_min).holder == "unattributed"@,
        f.holder matches Some(h) ==> session_of(f, scan, uid_min).holder == h.label(),
{
    a_session_is_excluded_by_the_address_it_comes_from(f.socket.remote_addr, ""@);
}

/// The effective uid is the second of the four numbers behind `Uid:`, whatever
/// lines stand before it.
pub proof fn the_effective_uid_is_the_second_number(
    before: Seq<Seq<char>>,
    after: Seq<Seq<char>>,
    started: u32,
    uid: u32,
    rest: Seq<char>,
)
    requires
        forall|k: int| 0 <= k < before.len() ==> crate::text::is_line(#[trigger] before[k]),
        forall|k: int| 0 <= k < after.len() ==> crate::text::is_line(#[trigger] after[k]),
        forall|k: int| 0 <= k < before.len() ==> !starts_with(#[trigger] before[k], "Uid:"@),
        crate::text::is_line(
            "Uid:"@ + (seq!['\t'] + dec(started as nat) + seq!['\t'] + dec(uid as nat) + seq!['\t']
                + rest),
        ),
    ensures
        effective(
            Some(
                crate::text::unlines(
                    before.push(
                        "Uid:"@ + (seq!['\t'] + dec(started as nat) + seq!['\t'] + dec(uid as nat)
                            + seq!['\t'] + rest),
                    ) + after,
                ),
            ),
        ) == Some(uid),
{
    let a = dec(started as nat);
    let b = dec(uid as nat);
    let tail = seq!['\t'] + a + seq!['\t'] + b + seq!['\t'] + rest;
    let line = "Uid:"@ + tail;
    let ls = before.push(line) + after;
    assert forall|k: int| 0 <= k < ls.len() implies crate::text::is_line(#[trigger] ls[k]) by {
        if k < before.len() {
            assert(ls[k] == before[k]);
        } else if k > before.len() {
            assert(ls[k] == after[k - before.len() - 1]);
        }
    }
    crate::text::lines_read_back(ls);
    crate::text::lemma_affixes("Uid:"@, tail);
    assert forall|k: int| 0 <= k < before.len() implies !starts_with(#[trigger] ls[k], "Uid:"@) by {
        assert(ls[k] == before[k]);
    }
    assert(ls[before.len() as int] == line);
    crate::text::lemma_first_starting_is(ls, "Uid:"@, before.len() as int);
    assert(line.skip("Uid:"@.len() as int) =~= tail);
    lemma_two_numbers(started, uid, rest);
    crate::num::dec_reads_back(uid as nat, 0xffff_ffff);
}

proof fn lemma_number_word(n: nat)
    ensures
        crate::text::is_word(dec(n)),
{
    crate::num::lemma_dec_digits(n);
    crate::text::lemma_digits_are_a_word(dec(n));
}

proof fn lemma_two_numbers(started: u32, uid: u32, rest: Seq<char>)
    ensures
        ({
            let w = words(
                seq!['\t'] + dec(started as nat) + seq!['\t'] + dec(uid as nat) + seq!['\t'] + rest,
            );
            w.len() > 1 && w[1] == dec(uid as nat)
        }),
{
    let a = dec(started as nat);
    let b = dec(uid as nat);
    lemma_number_word(started as nat);
    lemma_number_word(uid as nat);
    crate::text::lemma_one_word(a);
    crate::text::lemma_one_word(b);
    let none: Seq<char> = seq![];
    let p = none + seq!['\t'] + a;
    let q = p + seq!['\t'] + b;
    let r = q + seq!['\t'] + rest;
    crate::text::words_of_two_parts(none, '\t', a);
    crate::text::words_of_two_parts(p, '\t', b);
    crate::text::words_of_two_parts(q, '\t', rest);
    assert(words(none) =~= seq![]);
    assert(words(q) =~= seq![a, b]);
    assert(r =~= seq!['\t'] + a + seq!['\t'] + b + seq!['\t'] + rest);
    assert(words(r)[1] == b);
}

/// The first login account is what the first line for it says, whatever white
/// space is around the number; a comment says nothing, and where no line says
/// anything it is 1000.
pub proof fn the_first_setting_of_uid_min_counts(ls: Seq<Seq<char>>, i: int, n: u32)
    requires
        0 <= i < ls.len(),
        trim(ls[i]) == "UID_MIN"@ + (seq!['\t'] + dec(n as nat)) || trim(ls[i]) == "UID_MIN"@ + (
        seq![' '] + dec(n as nat)),
        forall|k: int| 0 <= k < i ==> uid_min_on(#[trigger] ls[k]) is None,
    ensures
        uid_min_on(ls[i]) == Some(n),
        uid_min_among(ls) == n,
    decreases i,
{
    if i > 0 {
        assert(uid_min_on(ls[0]) is None);
        let t = ls.skip(1);
        assert(t[i - 1] == ls[i]);
        assert forall|k: int| 0 <= k < i - 1 implies uid_min_on(#[trigger] t[k]) is None by {
            assert(t[k] == ls[k + 1]);
        }
        the_first_setting_of_uid_min_counts(t, i - 1, n);
    } else {
        let l = trim(ls[0]);
        let number = dec(n as nat);
        let rest = l.skip(7);
        reveal_strlit("UID_MIN");
        reveal_strlit("#");
        assert(l.subrange(0, 7) =~= "UID_MIN"@);
        assert(l.subrange(0, 1)[0] == 'U');
        assert(rest =~= seq![rest[0]] + number);
        crate::num::lemma_dec_digits(n as nat);
        assert(rest.skip(1) =~= number);
        assert(crate::text::trim_start(rest) == crate::text::trim_start(number));
        assert(!is_whitespace(number[0]) && !is_whitespace(number[number.len() - 1]));
        crate::text::lemma_trimmed_stays(number);
        assert(trim(rest) == number);
        crate::num::dec_reads_back(n as nat, 0xffff_ffff);
    }
}

pub proof fn without_a_setting_uid_min_is_1000(ls: Seq<Seq<char>>)
    requires
        forall|k: int| 0 <= k < ls.len() ==> trim(#[trigger] ls[k]).len() < 7 || trim(ls[k]).take(7)
            != "UID_MIN"@,
    ensures
        uid_min_among(ls) == 1000,
    decreases ls.len(),
{
    if ls.len() > 0 {
        let l = trim(ls[0]);
        reveal_strlit("UID_MIN");
        if l.len() >= 7 {
            assert(l.subrange(0, 7) =~= l.take(7));
        }
        assert(uid_min_on(ls[0]) is None);
        let t = ls.skip(1);
        assert forall|k: int| 0 <= k < t.len() implies trim(#[trigger] t[k]).len() < 7 || trim(
            t[k],
        ).take(7) != "UID_MIN"@ by {
            assert(t[k] == ls[k + 1]);
        }
        without_a_setting_uid_min_is_1000(t);
    }
}

/// A torrc gives a port by a line of the key and the number, alone or behind an
/// address and a colon, and whatever stands behind that; a comment gives none,
/// and neither does a longer key that begins alike.
pub proof fn a_line_of_the_key_gives_the_port(
    line: Seq<char>,
    key: Seq<char>,
    addr: Seq<char>,
    port: u16,
    flags: Seq<char>,
)
    requires
        key.len() > 0,
        key[0] != '#',
        addr.len() == 0 || (crate::text::is_word(addr) && addr.last() == ':'),
        trim(line) == key + (seq![' '] + (addr + dec(port as nat)) + seq![' '] + flags) || trim(line)
            == key + (seq![' '] + (addr + dec(port as nat))),
    ensures
        port_on(line, key) == Some(port),
{
    let l = trim(line);
    let number = dec(port as nat);
    let word = addr + number;
    let rest = l.skip(key.len() as int);
    reveal_strlit("#");
    crate::num::lemma_dec_digits(port as nat);
    lemma_number_word(port as nat);
    assert(crate::text::is_word(word)) by {
        assert forall|i: int| 0 <= i < word.len() implies !is_whitespace(#[trigger] word[i]) by {
            if i < addr.len() {
                assert(word[i] == addr[i]);
            } else {
                assert(word[i] == number[i - addr.len()]);
            }
        }
    }
    assert(l.subrange(0, key.len() as int) =~= key);
    assert(l.subrange(0, 1)[0] == key[0]);
    let none: Seq<char> = seq![];
    let first = none + seq![' '] + word;
    crate::text::words_of_two_parts(none, ' ', word);
    crate::text::lemma_one_word(word);
    assert(words(none) =~= seq![]);
    assert(words(first) =~= seq![word]);
    if l == key + (seq![' '] + word + seq![' '] + flags) {
        assert(rest =~= first + seq![' '] + flags);
        crate::text::words_of_two_parts(first, ' ', flags);
        assert(words(rest)[0] == word);
    } else {
        assert(rest =~= first);
    }
    assert(!number.contains(':')) by {
        if number.contains(':') {
            let i = choose|i: int| 0 <= i < number.len() && number[i] == ':';
            assert('0' <= number[i] <= '9');
        }
    }
    if addr.len() > 0 {
        assert(word =~= addr.drop_last() + seq![':'] + number);
        crate::text::lemma_last_field_is(addr.drop_last(), ':', number);
    } else {
        assert(word =~= number);
        crate::text::lemma_rfind_char(number, ':');
        let i = crate::text::rfind_char(number, ':');
        if i >= 0 {
            assert(number.contains(number[i]));
        }
        assert(number.skip(0) =~= number);
    }
    crate::num::dec_reads_back(port as nat, 65535);
}

pub proof fn a_comment_or_a_longer_key_gives_no_port(line: Seq<char>, key: Seq<char>)
    requires
        trim(line).len() > 0,
        trim(line)[0] == '#' || (trim(line).len() > key.len() && !is_whitespace(
            trim(line)[key.len() as int],
        )) || trim(line).len() <= key.len(),
    ensures
        port_on(line, key) is None,
{
    let l = trim(line);
    reveal_strlit("#");
    if l[0] == '#' {
        assert(l.subrange(0, 1) =~= "#"@);
    } else if l.len() > key.len() {
        assert(l.skip(key.len() as int)[0] == l[key.len() as int]);
    }
}

/// The first line that gives a port gives it.
pub proof fn the_first_port_counts(ls: Seq<Seq<char>>, key: Seq<char>, i: int)
    requires
        0 <= i < ls.len(),
        port_on(ls[i], key) is Some,
        forall|k: int| 0 <= k < i ==> port_on(#[trigger] ls[k], key) is None,
    ensures
        port_among(ls, key) == port_on(ls[i], key),
    decreases i,
{
    if i > 0 {
        assert(port_on(ls[0], key) is None);
        let t = ls.skip(1);
        assert(t[i - 1] == ls[i]);
        assert forall|k: int| 0 <= k < i - 1 implies port_on(#[trigger] t[k], key) is None by {
            assert(t[k] == ls[k + 1]);
        }
        the_first_port_counts(t, key, i - 1);
    }
}

/// A mapped address is spelled without its prefix, and every other address as it
/// is.
pub proof fn only_a_mapped_address_is_respelled(a: IpAddr)
    ensures
        a is V4 ==> normal(a.spelling()) == a.spelling(),
        (match a {
            IpAddr::V6(0, 0, 0, 0, 0, 0xffff, g, h) => normal(a.spelling()) == IpAddr::V4(
                (g / 256) as u8,
                (g % 256) as u8,
                (h / 256) as u8,
                (h % 256) as u8,
            ).spelling(),
            _ => normal(a.spelling()) == a.spelling(),
        }),
{
    reveal_strlit("::ffff:");
    match a.mapped() {
        Some(m) => {
            let s = a.spelling();
            assert(s.subrange(0, 7) =~= "::ffff:"@);
            assert(s.skip(7) =~= m.spelling());
            lemma_v4_spelling_reads(m);
        },
        None => {
            lemma_no_v4_inside(a);
        },
    }
}

/// What talks is what holds a connection that we dialled: its cgroup in the
/// unified hierarchy, without the slashes around it.
pub proof fn a_talker_is_named_by_its_own_cgroup(
    f: FlowView,
    flows: Seq<FlowView>,
    scan: Seq<ScannedView>,
    ports: EphemeralPorts,
    path: Seq<char>,
)
    requires
        f.holder is Some,
        way(f.socket, listening(flows), ports) is Outbound,
        process(scan, f.holder->0.pid) matches Some(p) && p.cgroup == Some(
            "0::/"@ + path + seq!['\n'],
        ),
        path.len() > 0,
        path[0] != '/' && path[0] != '0',
        path.last() != '/' && path.last() != '\r',
        !path.contains('\n'),
    ensures
        talking(f, flows, scan, ports) == Some(path),
{
    let body = "0::/"@ + path + seq!['\n'];
    let line = "0::/"@ + path;
    let ls = seq![line];
    reveal_strlit("0::/");
    reveal_strlit("0::");
    assert(line.last() == path.last());
    assert forall|k: int| 0 <= k < line.len() implies #[trigger] line[k] != '\n' by {
        if k >= 4 {
            assert(line[k] == path[k - 4]);
            assert(path.contains(path[k - 4]));
        }
    }
    assert(crate::text::is_line(ls[0]));
    crate::text::lines_read_back(ls);
    crate::text::lemma_unlines_front(ls);
    assert(ls.skip(1) =~= Seq::<Seq<char>>::empty());
    assert(crate::text::unlines(ls.skip(1)) =~= Seq::<char>::empty());
    assert(crate::text::unlines(ls) =~= body);
    assert(line.subrange(0, 3) =~= "0::"@);
    crate::text::lemma_first_starting_is(ls, "0::"@, 0);
    let rest = line.skip(3);
    assert(rest =~= seq!['/'] + path);
    assert(!starts_with(rest, "0::"@)) by {
        if starts_with(rest, "0::"@) {
            assert(rest.subrange(0, 3)[0] == '/');
        }
    }
    reveal_with_fuel(trim_start_str, 2);
    reveal_with_fuel(crate::text::trim_start_char, 2);
    assert(trim_start_str(rest, "0::"@) == rest);
    assert(trim_start_str(line, "0::"@) == rest);
    assert(rest.skip(1) =~= path);
    assert(crate::text::trim_start_char(path, '/') == path);
    assert(crate::text::trim_start_char(rest, '/') == path);
    assert(trim_char(rest, '/') == path);
}

/// What nobody holds, and what we did not dial, does not talk.
pub proof fn only_what_we_dialled_talks(
    f: FlowView,
    flows: Seq<FlowView>,
    scan: Seq<ScannedView>,
    ports: EphemeralPorts,
)
    requires
        f.holder is None || !(way(f.socket, listening(flows), ports) is Outbound),
    ensures
        talking(f, flows, scan, ports) is None,
{
}

/// Every row that talks is among the talkers, and nothing else is.
pub proof fn the_talkers_are_the_rows_that_talk(
    flows: Seq<FlowView>,
    n: nat,
    scan: Seq<ScannedView>,
    ports: EphemeralPorts,
    path: Seq<char>,
)
    requires
        n <= flows.len(),
    ensures
        talkers(flows, n, scan, ports).contains(path) <==> exists|k: int|
            0 <= k < n && talking(#[trigger] flows[k], flows, scan, ports) == Some(path),
    decreases n,
{
    if n > 0 {
        let m = (n - 1) as nat;
        the_talkers_are_the_rows_that_talk(flows, m, scan, ports, path);
        if let Some(p) = talking(flows[n - 1], flows, scan, ports) {
            crate::order::lemma_push_contains(talkers(flows, m, scan, ports), p, path);
        }
    }
}

/// The uid that Tor runs as is that of the process that is called `tor` and holds
/// the first of the rows that such a process holds.
pub proof fn tor_is_the_process_of_that_name(facts: HostFactsView, flows: Seq<FlowView>, i: int)
    requires
        0 <= i < flows.len(),
        flows[i].holder matches Some(h) && h.comm == "tor"@,
        forall|k: int|
            0 <= k < i ==> ((#[trigger] flows[k]).holder is None || flows[k].holder->0.comm
                != "tor"@),
    ensures
        host_of(facts, flows).tor_uid == uid_of(facts.scan, flows[i].holder->0.pid),
{
    lemma_tor_pid(flows, i);
}

proof fn lemma_tor_pid(flows: Seq<FlowView>, i: int)
    requires
        0 <= i < flows.len(),
        flows[i].holder matches Some(h) && h.comm == "tor"@,
        forall|k: int|
            0 <= k < i ==> ((#[trigger] flows[k]).holder is None || flows[k].holder->0.comm
                != "tor"@),
    ensures
        tor_pid(flows) == Some(flows[i].holder->0.pid),
    decreases i,
{
    if i > 0 {
        assert(flows[0].holder is None || flows[0].holder->0.comm != "tor"@);
        let t = flows.skip(1);
        assert(t[i - 1] == flows[i]);
        assert forall|k: int| 0 <= k < i - 1 implies ((#[trigger] t[k]).holder is None
            || t[k].holder->0.comm != "tor"@) by {
            assert(t[k] == flows[k + 1]);
        }
        lemma_tor_pid(t, i - 1);
    }
}

/// Without a process of that name no uid is claimed for Tor.
pub proof fn without_tor_no_uid_is_claimed(facts: HostFactsView, flows: Seq<FlowView>)
    requires
        forall|k: int|
            0 <= k < flows.len() ==> ((#[trigger] flows[k]).holder is None
                || flows[k].holder->0.comm != "tor"@),
    ensures
        host_of(facts, flows).tor_uid is None,
{
    lemma_no_tor(flows);
}

proof fn lemma_no_tor(flows: Seq<FlowView>)
    requires
        forall|k: int|
            0 <= k < flows.len() ==> ((#[trigger] flows[k]).holder is None
                || flows[k].holder->0.comm != "tor"@),
    ensures
        tor_pid(flows) is None,
    decreases flows.len(),
{
    if flows.len() > 0 {
        assert(flows[0].holder is None || flows[0].holder->0.comm != "tor"@);
        let t = flows.skip(1);
        assert forall|k: int| 0 <= k < t.len() implies ((#[trigger] t[k]).holder is None
            || t[k].holder->0.comm != "tor"@) by {
            assert(t[k] == flows[k + 1]);
        }
        lemma_no_tor(t);
    }
}

/// A process is found by its pid: the first of that pid, and none where there is
/// none.
pub proof fn a_process_is_found_by_its_pid(scan: Seq<ScannedView>, pid: u32)
    ensures
        match process(scan, pid) {
            Some(p) => scan.contains(p) && p.pid() == Some(pid),
            None => forall|i: int| 0 <= i < scan.len() ==> (#[trigger] scan[i]).pid() != Some(pid),
        },
    decreases scan.len(),
{
    if scan.len() > 0 {
        let t = scan.skip(1);
        a_process_is_found_by_its_pid(t, pid);
        if scan[0].pid() == Some(pid) {
            assert(scan.contains(scan[0]));
        } else {
            match process(scan, pid) {
                Some(p) => {
                    let k = choose|k: int| 0 <= k < t.len() && t[k] == p;
                    assert(scan[k + 1] == p);
                },
                None => {
                    assert forall|i: int| 0 <= i < scan.len() implies (#[trigger] scan[i]).pid()
                        != Some(pid) by {
                        if i > 0 {
                            assert(t[i - 1] == scan[i]);
                        }
                    }
                },
            }
        }
    }
}

/// A filter is known by its interface's name and by the number that is written
/// there; what is no number is left out.
pub proof fn a_filter_is_the_number_written_there(
    entries: Seq<(Seq<char>, Seq<char>)>,
    name: Seq<char>,
    n: u8,
    text: Seq<char>,
)
    ensures
        filters_among(entries.push((name, dec(n as nat) + seq!['\n']))) == filters_among(
            entries,
        ).push((name, n)),
        text.len() > 0 && !('0' <= trim(text).last() <= '9') && trim(text).len() > 0
            ==> filters_among(entries.push((name, text))) == filters_among(entries),
        filters_among(seq![]) == Seq::<(Seq<char>, u8)>::empty(),
{
    let number = dec(n as nat);
    let l = number + seq!['\n'];
    crate::num::lemma_dec_digits(n as nat);
    assert(entries.push((name, l)).drop_last() =~= entries);
    assert(entries.push((name, text)).drop_last() =~= entries);
    assert(l.drop_last() =~= number);
    assert(l[0] == number[0]);
    assert(!is_whitespace(number[0]) && !is_whitespace(number[number.len() - 1]));
    assert(crate::text::trim_end(l) == crate::text::trim_end(number));
    assert(trim(l) == number);
    crate::num::dec_reads_back(n as nat, 255);
    let t = trim(text);
    if t.len() > 0 && !('0' <= t.last() <= '9') {
        let u = crate::num::without_plus(t);
        if u.len() > 0 {
            assert(u.last() == t.last());
            assert(crate::num::digit_value(u.last(), 10) is None);
        }
    }
}

/// The cgroups that a policy can name are those under the two slices, one and two
/// levels deep, each by its path from the root.
pub proof fn the_cgroups_are_those_under_the_slices(
    slice: Seq<char>,
    dirs: Seq<CgroupDirView>,
    path: Seq<char>,
)
    ensures
        slice_paths(slice, dirs).contains(path) <==> exists|i: int|
            0 <= i < dirs.len() && #[trigger] lies_in(path, slice, dirs[i]),
    decreases dirs.len(),
{
    if dirs.len() > 0 {
        let t = dirs.drop_last();
        let d = dirs.last();
        the_cgroups_are_those_under_the_slices(slice, t, path);
        let own = slice + "/"@ + d.name;
        crate::order::lemma_push_contains(slice_paths(slice, t), own, path);
        vstd::seq_lib::lemma_seq_concat_contains_all_elements(
            slice_paths(slice, t).push(own),
            inner_paths(slice, d),
            path,
        );
        assert(lies_in(path, slice, d) <==> path == own || inner_paths(slice, d).contains(path)) by {
            if inner_paths(slice, d).contains(path) {
                let k = choose|k: int|
                    0 <= k < inner_paths(slice, d).len() && inner_paths(slice, d)[k] == path;
                assert(path == slice + "/"@ + d.name + "/"@ + d.inner[k]);
            }
            if exists|k: int|
                0 <= k < d.inner.len() && path == slice + "/"@ + d.name + "/"@
                    + #[trigger] d.inner[k] {
                let k = choose|k: int|
                    0 <= k < d.inner.len() && path == slice + "/"@ + d.name + "/"@
                        + #[trigger] d.inner[k];
                assert(inner_paths(slice, d)[k] == path);
            }
        }
        assert(dirs[dirs.len() - 1] == d);
        if exists|i: int| 0 <= i < t.len() && #[trigger] lies_in(path, slice, t[i]) {
            let i = choose|i: int| 0 <= i < t.len() && #[trigger] lies_in(path, slice, t[i]);
            assert(lies_in(path, slice, dirs[i]));
        }
        if exists|i: int| 0 <= i < dirs.len() && #[trigger] lies_in(path, slice, dirs[i]) {
            let i = choose|i: int| 0 <= i < dirs.len() && #[trigger] lies_in(path, slice, dirs[i]);
            if i < t.len() {
                assert(lies_in(path, slice, t[i]));
            }
        }
    }
}

/// Whether a path is that of a directory under a slice, or of one in it.
pub open spec fn lies_in(path: Seq<char>, slice: Seq<char>, d: CgroupDirView) -> bool {
    path == slice + "/"@ + d.name || exists|k: int|
        0 <= k < d.inner.len() && path == slice + "/"@ + d.name + "/"@ + #[trigger] d.inner[k]
}

/// The facts about a host are those that were read: its interfaces and its
/// cgroups, all of them and no others, and the ports that its torrc sets.
pub proof fn a_host_is_what_was_read_of_it(
    facts: HostFactsView,
    flows: Seq<FlowView>,
    name: Seq<char>,
)
    ensures
        host_of(facts, flows).interfaces.contains(name) <==> facts.interfaces.contains(name),
        host_of(facts, flows).interfaces.len() == facts.interfaces.len(),
        host_of(facts, flows).cgroups.contains(name) <==> (exists|i: int|
            0 <= i < facts.system_slice.len() && #[trigger] lies_in(
                name,
                "system.slice"@,
                facts.system_slice[i],
            )) || (exists|i: int|
            0 <= i < facts.user_slice.len() && #[trigger] lies_in(
                name,
                "user.slice"@,
                facts.user_slice[i],
            )),
        facts.torrc matches Some(t) ==> host_of(facts, flows).tor_trans_port == port_among(
            lines(t),
            "TransPort"@,
        ) && host_of(facts, flows).tor_dns_port == port_among(lines(t), "DNSPort"@),
        facts.torrc is None ==> host_of(facts, flows).tor_trans_port is None && host_of(
            facts,
            flows,
        ).tor_dns_port is None,
        host_of(facts, flows).tunnel_endpoints.len() == 0,
{
    broadcast use vstd::seq_lib::group_to_multiset_ensures;

    lemma_sorted_members(facts.interfaces, name);
    sorting_keeps_every_value(facts.interfaces);
    let a = slice_paths("system.slice"@, facts.system_slice);
    let b = slice_paths("user.slice"@, facts.user_slice);
    lemma_sorted_members(a + b, name);
    vstd::seq_lib::lemma_seq_concat_contains_all_elements(a, b, name);
    the_cgroups_are_those_under_the_slices("system.slice"@, facts.system_slice, name);
    the_cgroups_are_those_under_the_slices("user.slice"@, facts.user_slice, name);
}

/// The filters that are known are those that could be read.
pub proof fn every_filter_is_known(
    facts: HostFactsView,
    flows: Seq<FlowView>,
    filter: (Seq<char>, u8),
)
    ensures
        host_of(facts, flows).rp_filter.contains(filter) <==> filters_among(
            facts.rp_filter,
        ).contains(filter),
{
    lemma_sorted_members(filters_among(facts.rp_filter), filter);
}

/// What was read of a host is put in order: interfaces and cgroups by name, filters
/// by interface, the processes that hold a socket by number, and the connections
/// that may be somebody's session with those of a login account first, each lot by
/// peer.
pub proof fn what_is_read_is_put_in_order(
    facts: HostFactsView,
    flows: Seq<FlowView>,
    inode: u64,
    i: int,
    j: int,
)
    requires
        0 <= i < j,
    ensures
        ({
            let host = host_of(facts, flows);
            let pids = holders(facts.scan, inode);
            let all = candidates(facts, flows);
            &&& j < host.interfaces.len() ==> lex_le(host.interfaces[i], host.interfaces[j])
            &&& j < host.cgroups.len() ==> lex_le(host.cgroups[i], host.cgroups[j])
            &&& j < host.rp_filter.len() ==> lex_le(host.rp_filter[i].0, host.rp_filter[j].0)
            &&& j < pids.len() ==> pids[i] <= pids[j]
            &&& j < all.len() && all[j].likely ==> all[i].likely
            &&& j < all.len() && all[i].likely == all[j].likely ==> lex_le(all[i].peer, all[j].peer)
        }),
{
    let host = host_of(facts, flows);
    let pids = holders(facts.scan, inode);
    let all = candidates(facts, flows);
    sorting_keeps_every_value(facts.interfaces);
    sorting_keeps_every_value(
        slice_paths("system.slice"@, facts.system_slice) + slice_paths(
            "user.slice"@,
            facts.user_slice,
        ),
    );
    sorting_keeps_every_value(filters_among(facts.rp_filter));
    sorting_keeps_every_value(holding(facts.scan, socket_link(inode)));
    sorting_keeps_every_value(
        sessions(
            flows,
            flows.len(),
            facts.scan,
            facts.ports,
            uid_min_among(lines_or_none(facts.login_defs)),
        ),
    );
    if j < host.interfaces.len() {
        assert(host.interfaces[i].le(host.interfaces[j]));
    }
    if j < host.cgroups.len() {
        assert(host.cgroups[i].le(host.cgroups[j]));
    }
    if j < host.rp_filter.len() {
        assert(host.rp_filter[i].le(host.rp_filter[j]));
        crate::order::lemma_lex_total(host.rp_filter[i].0, host.rp_filter[j].0);
    }
    if j < pids.len() {
        assert(pids[i].le(pids[j]));
    }
    if j < all.len() {
        assert(all[i].le(all[j]));
    }
}

} // verus!
