//! Attributing a socket to the thing that opened it.
//!
//! A socket inode is the join key. Every process's `/proc/<pid>/fd/*` that is
//! a socket links to `socket:[<inode>]`, so one pass over `/proc` gives inode
//! to pid.
//!
//! A pid alone answers nothing, so `/proc/<pid>/cgroup` says whether this is a
//! system service, a user application, or a container: the distinction between
//! a daemon somebody installed and the browser they have open.

use std::collections::HashMap;

use vstd::prelude::*;
use vstd::string::*;

use crate::num::{dec, decimal, digit, digit_value, push_dec, read_decimal};
use crate::text::{
    after_prefix, after_str, before_str, before_suffix, chars_of, contains, copy, copy_opt, ends,
    ends_with, fields, first_holding, first_starting, has_at, head_str, holds, last_field, line_holding,
    line_starting, lines, lines_of, opt_string, piece, rest_str, same, split, strip_prefix,
    strip_suffix, tail_field, texts, trim, trim_end_str, trimmed, trimmed_end_str,
};

verus! {

broadcast use vstd::std_specs::hash::group_hash_axioms;

/// What kind of thing owns a socket, as told by its cgroup path.
#[derive(Debug, PartialEq, Eq)]
pub enum Owner {
    /// A systemd system service, a daemon. Carries the unit name.
    Service(String),
    /// Something launched in a user's session: an app, or a shell.
    UserApp { unit: String, uid_hint: Option<u32> },
    /// A container. Carries the runtime's id, truncated.
    Container(String),
    /// Running, but its cgroup says nothing useful.
    Process,
    /// The socket exists and no process claims it. Normal and important: see
    /// [`attribute`].
    Unowned,
}

/// What an [`Owner`] says.
pub enum OwnerView {
    Service(Seq<char>),
    UserApp { unit: Seq<char>, uid_hint: Option<u32> },
    Container(Seq<char>),
    Process,
    Unowned,
}

impl OwnerView {
    pub open spec fn kind(self) -> Seq<char> {
        match self {
            OwnerView::Service(_) => "service"@,
            OwnerView::UserApp { .. } => "app"@,
            OwnerView::Container(_) => "container"@,
            OwnerView::Process => "process"@,
            OwnerView::Unowned => "unowned"@,
        }
    }

    pub open spec fn name(self) -> Option<Seq<char>> {
        match self {
            OwnerView::Service(s) => Some(s),
            OwnerView::Container(s) => Some(s),
            OwnerView::UserApp { unit, .. } => Some(unit),
            OwnerView::Process | OwnerView::Unowned => None,
        }
    }
}

impl View for Owner {
    type V = OwnerView;

    open spec fn view(&self) -> OwnerView {
        match *self {
            Owner::Service(s) => OwnerView::Service(s@),
            Owner::UserApp { unit, uid_hint } => OwnerView::UserApp { unit: unit@, uid_hint },
            Owner::Container(s) => OwnerView::Container(s@),
            Owner::Process => OwnerView::Process,
            Owner::Unowned => OwnerView::Unowned,
        }
    }
}

impl Clone for Owner {
    fn clone(&self) -> (r: Self)
        ensures
            r@ == self@,
    {
        match self {
            Owner::Service(s) => Owner::Service(copy(s.as_str())),
            Owner::UserApp { unit, uid_hint } => Owner::UserApp {
                unit: copy(unit.as_str()),
                uid_hint: *uid_hint,
            },
            Owner::Container(s) => Owner::Container(copy(s.as_str())),
            Owner::Process => Owner::Process,
            Owner::Unowned => Owner::Unowned,
        }
    }
}

impl Owner {
    /// A short label for a UI column.
    pub fn kind(&self) -> (r: &'static str)
        ensures
            r@ == self@.kind(),
    {
        match self {
            Owner::Service(_) => "service",
            Owner::UserApp { .. } => "app",
            Owner::Container(_) => "container",
            Owner::Process => "process",
            Owner::Unowned => "unowned",
        }
    }

    /// The name to show, if there is a better one than the process name.
    pub fn name(&self) -> (r: Option<&str>)
        ensures
            (match r {
                Some(n) => self@.name() == Some(n@),
                None => self@.name() is None,
            }),
    {
        match self {
            Owner::Service(s) => Some(s.as_str()),
            Owner::Container(s) => Some(s.as_str()),
            Owner::UserApp { unit, .. } => Some(unit.as_str()),
            Owner::Process | Owner::Unowned => None,
        }
    }
}

// ---------------------------------------------------------------------------
// Reading a cgroup
// ---------------------------------------------------------------------------

/// The cgroup path a `/proc/<pid>/cgroup` body names.
///
/// cgroup v2 gives a single `0::/path` line. v1 gives many; the systemd
/// hierarchy is the one worth reading there, and any line is better than none.
pub open spec fn cgroup_path(body: Seq<char>) -> Seq<char> {
    let ls = lines(body);
    match first_starting(ls, "0::"@) {
        Some(l) => last_field(l, ':'),
        None => match first_holding(ls, ":name=systemd:"@) {
            Some(l) => last_field(l, ':'),
            None => if ls.len() > 0 {
                last_field(ls[0], ':')
            } else {
                ""@
            },
        },
    }
}

/// The container whose scope a marker introduces: the first twelve of the
/// hexadecimal digits behind the marker's first occurrence.
pub open spec fn container_at(path: Seq<char>, marker: Seq<char>) -> Option<Seq<char>> {
    match after_str(path, marker) {
        Some(rest) => if rest.len() >= 12 && (forall|i: int|
            0 <= i < 12 ==> digit_value(#[trigger] rest[i], 16) is Some) {
            Some(rest.take(12))
        } else {
            None
        },
        None => None,
    }
}

/// The container a path belongs to, by the markers of the runtimes.
pub open spec fn container_of(path: Seq<char>) -> Option<Seq<char>> {
    match container_at(path, "docker-"@) {
        Some(id) => Some(id),
        None => match container_at(path, "libpod-"@) {
            Some(id) => Some(id),
            None => match container_at(path, "cri-containerd-"@) {
                Some(id) => Some(id),
                None => container_at(path, "crio-"@),
            },
        },
    }
}

/// The last of the fields that is not empty.
pub open spec fn last_filled(f: Seq<Seq<char>>) -> Option<Seq<char>>
    decreases f.len(),
{
    if f.len() == 0 {
        None
    } else if f.last().len() > 0 {
        Some(f.last())
    } else {
        last_filled(f.drop_last())
    }
}

/// The last component of a path.
pub open spec fn leaf(path: Seq<char>) -> Seq<char> {
    match last_filled(split(path, '/')) {
        Some(l) => l,
        None => path,
    }
}

/// The uid in `/user@<uid>.service`, where a path holds one.
pub open spec fn session_uid(path: Seq<char>) -> Option<u32> {
    match after_str(path, "/user@"@) {
        Some(rest) => match decimal(
            before_str(before_str(rest, "/user@"@), ".service"@),
            0xffff_ffff,
        ) {
            Some(n) => Some(n as u32),
            None => None,
        },
        None => None,
    }
}

/// The owner a `/proc/<pid>/cgroup` body names.
///
/// Containers come first: a container's scope also sits under a systemd slice,
/// so asking about systemd first would label every container as a service.
pub open spec fn owner_of(body: Seq<char>) -> OwnerView {
    let path = cgroup_path(body);
    if path == ""@ || path == "/"@ {
        OwnerView::Process
    } else {
        match container_of(path) {
            Some(id) => OwnerView::Container(id),
            None => if contains(path, "/user.slice/"@) || contains(path, "/user@"@) {
                OwnerView::UserApp {
                    unit: trim_end_str(leaf(path), ".scope"@),
                    uid_hint: session_uid(path),
                }
            } else if ends_with(leaf(path), ".service"@) {
                OwnerView::Service(trim_end_str(leaf(path), ".service"@))
            } else {
                OwnerView::Process
            },
        }
    }
}

fn path_in(body: &str) -> (r: String)
    ensures
        r@ == cgroup_path(body@),
{
    let ls: Vec<String> = lines_of(body);
    match line_starting(&ls, "0::") {
        Some(l) => tail_field(l.as_str(), ':'),
        None => match line_holding(&ls, ":name=systemd:") {
            Some(l) => tail_field(l.as_str(), ':'),
            None => {
                if ls.len() > 0 {
                    assert(texts(ls@)[0] == ls@[0]@);
                    tail_field(ls[0].as_str(), ':')
                } else {
                    String::from_str("")
                }
            },
        },
    }
}

fn container_marked(path: &str, marker: &str) -> (r: Option<String>)
    ensures
        opt_string(r) == container_at(path@, marker@),
{
    let rest: String = match rest_str(path, marker) {
        Some(rest) => rest,
        None => {
            return None;
        },
    };
    let v: Vec<char> = chars_of(rest.as_str());
    if v.len() < 12 {
        return None;
    }
    let mut i: usize = 0;
    while i < 12
        invariant
            i <= 12,
            v@.len() >= 12,
            v@ == rest@,
            after_str(path@, marker@) == Some(rest@),
            forall|k: int| 0 <= k < i ==> digit_value(#[trigger] rest@[k], 16) is Some,
        decreases 12 - i,
    {
        if digit(v[i], 16).is_none() {
            assert(digit_value(rest@[i as int], 16) is None);
            return None;
        }
        i += 1;
    }
    let id: String = piece(&v, 0, 12);
    assert(id@ =~= rest@.take(12));
    Some(id)
}

fn container_in(path: &str) -> (r: Option<String>)
    ensures
        opt_string(r) == container_of(path@),
{
    match container_marked(path, "docker-") {
        Some(id) => Some(id),
        None => match container_marked(path, "libpod-") {
            Some(id) => Some(id),
            None => match container_marked(path, "cri-containerd-") {
                Some(id) => Some(id),
                None => container_marked(path, "crio-"),
            },
        },
    }
}

fn leaf_of(path: &str) -> (r: String)
    ensures
        r@ == leaf(path@),
{
    let f: Vec<String> = fields(path, '/');
    let ghost all = texts(f@);
    let mut n: usize = f.len();
    assert(all.take(n as int) =~= all);
    while n > 0
        invariant
            n <= f@.len(),
            all == texts(f@),
            all == split(path@, '/'),
            last_filled(all) == last_filled(all.take(n as int)),
        decreases n,
    {
        assert(all.take(n as int).drop_last() =~= all.take(n - 1));
        assert(all.take(n as int).last() == f@[n - 1]@);
        if !same(f[n - 1].as_str(), "") {
            assert(f@[n - 1]@.len() > 0) by {
                reveal_strlit("");
                if f@[n - 1]@.len() == 0 {
                    assert(f@[n - 1]@ =~= ""@);
                }
            }
            return copy(f[n - 1].as_str());
        }
        assert(f@[n - 1]@.len() == 0) by {
            reveal_strlit("");
        }
        n -= 1;
    }
    copy(path)
}

fn uid_in(path: &str) -> (r: Option<u32>)
    ensures
        r == session_uid(path@),
{
    match rest_str(path, "/user@") {
        Some(rest) => {
            let first: String = head_str(rest.as_str(), "/user@");
            let uid: String = head_str(first.as_str(), ".service");
            match read_decimal(uid.as_str(), 0xffff_ffff) {
                Some(n) => Some(n as u32),
                None => None,
            }
        },
        None => None,
    }
}

/// Classify a `/proc/<pid>/cgroup` body.
pub fn classify_cgroup(body: &str) -> (r: Owner)
    ensures
        r@ == owner_of(body@),
{
    let path: String = path_in(body);
    if same(path.as_str(), "") || same(path.as_str(), "/") {
        return Owner::Process;
    }
    if let Some(id) = container_in(path.as_str()) {
        return Owner::Container(id);
    }
    let leaf: String = leaf_of(path.as_str());
    if holds(path.as_str(), "/user.slice/") || holds(path.as_str(), "/user@") {
        return Owner::UserApp {
            unit: trimmed_end_str(leaf.as_str(), ".scope"),
            uid_hint: uid_in(path.as_str()),
        };
    }
    if ends(leaf.as_str(), ".service") {
        return Owner::Service(trimmed_end_str(leaf.as_str(), ".service"));
    }
    Owner::Process
}

// ---------------------------------------------------------------------------
// Who holds a socket
// ---------------------------------------------------------------------------

/// A process that holds at least one socket.
#[derive(Debug, PartialEq, Eq)]
pub struct Holder {
    pub pid: u32,
    /// `/proc/<pid>/comm`: the short name, always present.
    pub comm: String,
    /// Resolved `/proc/<pid>/exe`. `None` when the process is another user's
    /// and we are not root, or it exited mid-scan.
    pub exe: Option<String>,
    pub owner: Owner,
}

/// What a [`Holder`] says.
pub struct HolderView {
    pub pid: u32,
    pub comm: Seq<char>,
    pub exe: Option<Seq<char>>,
    pub owner: OwnerView,
}

impl HolderView {
    /// The process name, and behind it the owner's where that is another.
    pub open spec fn label(self) -> Seq<char> {
        match self.owner.name() {
            Some(n) if n != self.comm => self.comm + " ("@ + n + ")"@,
            _ => self.comm,
        }
    }
}

impl View for Holder {
    type V = HolderView;

    open spec fn view(&self) -> HolderView {
        HolderView {
            pid: self.pid,
            comm: self.comm@,
            exe: opt_string(self.exe),
            owner: self.owner@,
        }
    }
}

impl Clone for Holder {
    fn clone(&self) -> (r: Self)
        ensures
            r@ == self@,
    {
        Holder {
            pid: self.pid,
            comm: copy(self.comm.as_str()),
            exe: copy_opt(&self.exe),
            owner: self.owner.clone(),
        }
    }
}

impl Holder {
    /// The best available human label.
    pub fn label(&self) -> (r: String)
        ensures
            r@ == self@.label(),
    {
        match self.owner.name() {
            Some(n) => {
                if same(n, self.comm.as_str()) {
                    copy(self.comm.as_str())
                } else {
                    let mut s: String = copy(self.comm.as_str());
                    s.append(" (");
                    s.append(n);
                    s.append(")");
                    s
                }
            },
            None => copy(self.comm.as_str()),
        }
    }
}

/// The inode in `socket:[12345]`.
pub open spec fn inode_of(link: Seq<char>) -> Option<u64> {
    match strip_prefix(link, "socket:["@) {
        Some(rest) => match strip_suffix(rest, "]"@) {
            Some(n) => match decimal(n, 0xffff_ffff_ffff_ffff) {
                Some(v) => Some(v as u64),
                None => None,
            },
            None => None,
        },
        None => None,
    }
}

/// `socket:[12345]` to `12345`.
pub fn socket_inode(link: &str) -> (r: Option<u64>)
    ensures
        r == inode_of(link@),
{
    match after_prefix(link, "socket:[") {
        Some(rest) => match before_suffix(rest.as_str(), "]") {
            Some(n) => read_decimal(n.as_str(), 0xffff_ffff_ffff_ffff),
            None => None,
        },
        None => None,
    }
}

/// Whether one of a process's descriptors is the socket.
pub open spec fn links_to(links: Seq<Seq<char>>, inode: u64) -> bool {
    exists|i: int| 0 <= i < links.len() && inode_of(#[trigger] links[i]) == Some(inode)
}

/// What was read of one entry of `/proc`.
///
/// Every read is allowed to fail on its own: processes exit while they are
/// being looked at.
#[derive(Debug)]
pub struct ScannedProcess {
    /// The name of the entry, a pid where it is a process.
    pub name: String,
    /// What the entries of `fd` link to. Empty where they could not be read.
    pub links: Vec<String>,
    pub comm: Option<String>,
    pub exe: Option<String>,
    pub cgroup: Option<String>,
    pub status: Option<String>,
}

/// What a [`ScannedProcess`] says.
pub struct ScannedView {
    pub name: Seq<char>,
    pub links: Seq<Seq<char>>,
    pub comm: Option<Seq<char>>,
    pub exe: Option<Seq<char>>,
    pub cgroup: Option<Seq<char>>,
    pub status: Option<Seq<char>>,
}

impl View for ScannedProcess {
    type V = ScannedView;

    open spec fn view(&self) -> ScannedView {
        ScannedView {
            name: self.name@,
            links: texts(self.links@),
            comm: opt_string(self.comm),
            exe: opt_string(self.exe),
            cgroup: opt_string(self.cgroup),
            status: opt_string(self.status),
        }
    }
}

pub open spec fn scanned_views(v: Seq<ScannedProcess>) -> Seq<ScannedView> {
    Seq::new(v.len(), |i: int| v[i]@)
}

impl ScannedView {
    pub open spec fn pid(self) -> Option<u32> {
        match decimal(self.name, 0xffff_ffff) {
            Some(n) => Some(n as u32),
            None => None,
        }
    }

    /// Whether this is a process, and one of its descriptors is the socket.
    pub open spec fn holds(self, inode: u64) -> bool {
        self.pid() is Some && links_to(self.links, inode)
    }

    /// What is known of the process.
    pub open spec fn holder(self) -> HolderView {
        let pid = self.pid()->0;
        HolderView {
            pid,
            comm: match self.comm {
                Some(c) => trim(c),
                None => "pid:"@ + dec(pid as nat),
            },
            exe: self.exe,
            owner: match self.cgroup {
                Some(b) => owner_of(b),
                None => OwnerView::Process,
            },
        }
    }
}

/// The process that a socket is attributed to: of those that hold it, the one
/// with the lowest pid.
///
/// A forking server's master and its workers all hold the listening socket.
/// The lowest pid is stable between scans, and names the parent.
pub open spec fn winner(scan: Seq<ScannedView>, inode: u64) -> Option<HolderView>
    decreases scan.len(),
{
    if scan.len() == 0 {
        None
    } else {
        let before = winner(scan.drop_last(), inode);
        let last = scan.last();
        if last.holds(inode) && (before is None || last.pid()->0 < before->0.pid) {
            Some(last.holder())
        } else {
            before
        }
    }
}

/// What a map of holders says of an inode.
pub open spec fn held(m: Map<u64, Holder>, inode: u64) -> Option<HolderView> {
    if m.contains_key(inode) {
        Some(m[inode]@)
    } else {
        None
    }
}

fn holder_of(p: &ScannedProcess, pid: u32) -> (r: Holder)
    requires
        p@.pid() == Some(pid),
    ensures
        r@ == p@.holder(),
{
    let comm: String = match &p.comm {
        Some(c) => trimmed(c.as_str()),
        None => {
            let mut s: String = String::from_str("pid:");
            push_dec(&mut s, pid as u64);
            s
        },
    };
    let owner: Owner = match &p.cgroup {
        Some(b) => classify_cgroup(b.as_str()),
        None => Owner::Process,
    };
    Holder { pid, comm, exe: copy_opt(&p.exe), owner }
}

/// Note in the map what one process holds.
fn note_process(map: &mut HashMap<u64, Holder>, p: &ScannedProcess, pid: u32)
    requires
        p@.pid() == Some(pid),
    ensures
        forall|inode: u64| #[trigger]
            held(final(map)@, inode) == (if p@.holds(inode) && (held(old(map)@, inode) is None
                || pid < held(old(map)@, inode)->0.pid) {
                Some(p@.holder())
            } else {
                held(old(map)@, inode)
            }),
{
    let ghost start = map@;
    let ghost links = p@.links;
    let mut i: usize = 0;
    while i < p.links.len()
        invariant
            i <= p.links@.len(),
            links == texts(p.links@),
            links == p@.links,
            p@.pid() == Some(pid),
            forall|inode: u64| #[trigger]
                held(map@, inode) == (if links_to(links.take(i as int), inode) && (held(
                    start,
                    inode,
                ) is None || pid < held(start, inode)->0.pid) {
                    Some(p@.holder())
                } else {
                    held(start, inode)
                }),
        decreases p.links@.len() - i,
    {
        let ghost was = map@;
        assert(links[i as int] == p.links@[i as int]@);
        let found: Option<u64> = socket_inode(p.links[i].as_str());
        if let Some(inode) = found {
            let replace: bool = match map.get(&inode) {
                Some(existing) => pid < existing.pid,
                None => true,
            };
            assert(replace == (held(was, inode) is None || pid < held(was, inode)->0.pid));
            if replace {
                let h: Holder = holder_of(p, pid);
                map.insert(inode, h);
                assert(map@ == was.insert(inode, h));
            }
        }
        assert forall|n: u64| #[trigger]
            held(map@, n) == (if links_to(links.take(i + 1), n) && (held(start, n) is None || pid
                < held(start, n)->0.pid) {
                Some(p@.holder())
            } else {
                held(start, n)
            }) by {
            lemma_links_to_next(links, i as int, n);
            assert(found == inode_of(links[i as int]));
            assert(held(was, n) == held(was, n));
            if found != Some(n) {
                assert(held(map@, n) == held(was, n));
            }
        }
        i += 1;
    }
    assert(links.take(i as int) =~= links);
}

proof fn lemma_links_to_next(links: Seq<Seq<char>>, i: int, inode: u64)
    requires
        0 <= i < links.len(),
    ensures
        links_to(links.take(i + 1), inode) <==> links_to(links.take(i), inode) || inode_of(
            links[i],
        ) == Some(inode),
{
    let a = links.take(i);
    let b = links.take(i + 1);
    assert(b[i] == links[i]);
    assert forall|k: int| 0 <= k < i implies #[trigger] a[k] == b[k] by {}
    if links_to(a, inode) {
        let k = choose|k: int| 0 <= k < a.len() && inode_of(#[trigger] a[k]) == Some(inode);
        assert(inode_of(b[k]) == Some(inode));
    }
    if links_to(b, inode) {
        let k = choose|k: int| 0 <= k < b.len() && inode_of(#[trigger] b[k]) == Some(inode);
        if k < i {
            assert(inode_of(a[k]) == Some(inode));
        }
    }
}

/// Which process holds each socket, by inode.
pub fn holders_by_inode(scan: &Vec<ScannedProcess>) -> (r: HashMap<u64, Holder>)
    ensures
        forall|inode: u64| #[trigger] held(r@, inode) == winner(scanned_views(scan@), inode),
{
    let mut map: HashMap<u64, Holder> = HashMap::new();
    let ghost all = scanned_views(scan@);
    let mut i: usize = 0;
    assert(all.take(0) =~= Seq::<ScannedView>::empty());
    while i < scan.len()
        invariant
            i <= scan@.len(),
            all == scanned_views(scan@),
            forall|inode: u64| #[trigger] held(map@, inode) == winner(all.take(i as int), inode),
        decreases scan@.len() - i,
    {
        let ghost was = map@;
        assert(all.take(i + 1).drop_last() =~= all.take(i as int));
        assert(all.take(i + 1).last() == scan@[i as int]@);
        if let Some(pid) = read_decimal(scan[i].name.as_str(), 0xffff_ffff) {
            note_process(&mut map, &scan[i], pid as u32);
        }
        assert forall|inode: u64| #[trigger] held(map@, inode) == winner(all.take(i + 1), inode) by {
            assert(held(was, inode) == winner(all.take(i as int), inode));
        }
        i += 1;
    }
    assert(all.take(i as int) =~= all);
    map
}

/// Attach an owner to a socket inode.
///
/// `Unowned` is a real answer, not a failure. Two things land here and they
/// mean opposite things:
///
/// * inode 0: kernel-side sockets with no file, such as TIME-WAIT and
///   SYN-RECV. Ordinary.
/// * a real inode with no holder: either a process owned by another user while
///   running unprivileged, or something that exited between reading the socket
///   table and walking `/proc`.
pub fn attribute(inode: u64, holders: &HashMap<u64, Holder>) -> (r: Owner)
    ensures
        r@ == (match held(holders@, inode) {
            Some(h) if inode != 0 => h.owner,
            _ => OwnerView::Unowned,
        }),
{
    if inode == 0 {
        return Owner::Unowned;
    }
    match holders.get(&inode) {
        Some(h) => h.owner.clone(),
        None => Owner::Unowned,
    }
}

// ---------------------------------------------------------------------------
// Laws
// ---------------------------------------------------------------------------

/// A socket is attributed to a process that holds it, and no process that
/// holds it has a lower pid. It goes unattributed only where nobody holds it.
pub proof fn the_lowest_pid_wins(scan: Seq<ScannedView>, inode: u64)
    ensures
        winner(scan, inode) is None <==> (forall|i: int|
            0 <= i < scan.len() ==> !(#[trigger] scan[i]).holds(inode)),
        winner(scan, inode) matches Some(h) ==> exists|i: int|
            0 <= i < scan.len() && (#[trigger] scan[i]).holds(inode) && scan[i].holder() == h,
        winner(scan, inode) matches Some(h) ==> forall|i: int|
            0 <= i < scan.len() && (#[trigger] scan[i]).holds(inode) ==> h.pid
                <= scan[i].pid()->0,
    decreases scan.len(),
{
    if scan.len() > 0 {
        let t = scan.drop_last();
        the_lowest_pid_wins(t, inode);
        assert forall|i: int| 0 <= i < t.len() implies #[trigger] t[i] == scan[i] by {}
        assert(scan.last() == scan[scan.len() - 1]);
        if winner(t, inode) is Some {
            let k = choose|i: int|
                0 <= i < t.len() && (#[trigger] t[i]).holds(inode) && t[i].holder() == winner(
                    t,
                    inode,
                )->0;
            assert(scan[k].holds(inode) && scan[k].holder() == winner(t, inode)->0);
        } else {
            assert forall|i: int| 0 <= i < t.len() implies !(#[trigger] scan[i]).holds(inode) by {
                assert(!t[i].holds(inode));
            }
        }
        assert forall|i: int|
            0 <= i < scan.len() && (#[trigger] scan[i]).holds(inode) implies winner(
            scan,
            inode,
        ) is Some && winner(scan, inode)->0.pid <= scan[i].pid()->0 by {
            if i < t.len() {
                assert(t[i].holds(inode));
            }
        }
    }
}

/// The order in which the processes are looked at does not matter, as long as
/// no two of them have one pid: the same owner comes out of every scan.
pub proof fn the_order_of_a_scan_does_not_matter(
    a: Seq<ScannedView>,
    b: Seq<ScannedView>,
    inode: u64,
)
    requires
        forall|p: ScannedView| #[trigger] a.contains(p) <==> b.contains(p),
        forall|p: ScannedView, q: ScannedView|
            #![trigger a.contains(p), a.contains(q)]
            a.contains(p) && a.contains(q) && p.pid() is Some && p.pid() == q.pid() ==> p == q,
    ensures
        winner(a, inode) == winner(b, inode),
{
    the_lowest_pid_wins(a, inode);
    the_lowest_pid_wins(b, inode);
    if winner(a, inode) is Some {
        let i = choose|i: int|
            0 <= i < a.len() && (#[trigger] a[i]).holds(inode) && a[i].holder() == winner(
                a,
                inode,
            )->0;
        assert(a.contains(a[i]));
        assert(b.contains(a[i]));
        let k = choose|k: int| 0 <= k < b.len() && b[k] == a[i];
        assert(b[k].holds(inode));
    }
    if winner(b, inode) is Some {
        let j = choose|j: int|
            0 <= j < b.len() && (#[trigger] b[j]).holds(inode) && b[j].holder() == winner(
                b,
                inode,
            )->0;
        assert(b.contains(b[j]));
        assert(a.contains(b[j]));
        let m = choose|m: int| 0 <= m < a.len() && a[m] == b[j];
        assert(a[m].holds(inode));
        let i = choose|i: int|
            0 <= i < a.len() && (#[trigger] a[i]).holds(inode) && a[i].holder() == winner(
                a,
                inode,
            )->0;
        assert(a.contains(a[i]));
        assert(b.contains(a[i]));
        let k = choose|k: int| 0 <= k < b.len() && b[k] == a[i];
        assert(b[k].holds(inode));
        assert(a[i].pid()->0 == a[m].pid()->0);
        assert(a.contains(a[m]));
        assert(a[i] == a[m]);
    }
}

/// A path with a container's marker and id in it belongs to the container,
/// whatever slice or unit the path lies under.
pub proof fn a_container_is_never_a_service(body: Seq<char>)
    requires
        container_of(cgroup_path(body)) is Some,
    ensures
        owner_of(body) == OwnerView::Container(container_of(cgroup_path(body))->0),
{
    let path = cgroup_path(body);
    reveal_strlit("");
    reveal_strlit("/");
    reveal_strlit("docker-");
    reveal_strlit("libpod-");
    reveal_strlit("cri-containerd-");
    reveal_strlit("crio-");
    lemma_container_is_long(path, "docker-"@);
    lemma_container_is_long(path, "libpod-"@);
    lemma_container_is_long(path, "cri-containerd-"@);
    lemma_container_is_long(path, "crio-"@);
    assert(""@.len() == 0 && "/"@.len() == 1);
}

proof fn lemma_container_is_long(path: Seq<char>, marker: Seq<char>)
    ensures
        container_at(path, marker) is Some ==> path.len() >= 12,
{
    crate::text::lemma_find_from(path, marker, 0);
}

// ---------------------------------------------------------------------------
// What a cgroup path means
// ---------------------------------------------------------------------------

/// Whether a text is what a container runtime puts in front of its containers'
/// ids.
pub open spec fn is_marker(m: Seq<char>) -> bool {
    m == "docker-"@ || m == "libpod-"@ || m == "cri-containerd-"@ || m == "crio-"@
}

/// Whether a text holds no marker of any runtime.
pub open spec fn unmarked(s: Seq<char>) -> bool {
    !contains(s, "docker-"@) && !contains(s, "libpod-"@) && !contains(s, "cri-containerd-"@)
        && !contains(s, "crio-"@)
}

/// Whether a text can stand on a line of a cgroup file as a path.
pub open spec fn is_path(s: Seq<char>) -> bool {
    !s.contains(':') && !s.contains('\n') && !s.contains('\r')
}

/// Two markers cannot overlap: nowhere inside `a` does `b` begin.
spec fn apart(a: Seq<char>, b: Seq<char>) -> bool {
    forall|k: int|
        0 < k < a.len() ==> #[trigger] a[k] != b[0] || (k + 1 < a.len() && a[k + 1] != b[1])
}

proof fn lemma_markers_apart(a: Seq<char>, b: Seq<char>)
    requires
        is_marker(a),
        is_marker(b),
    ensures
        apart(a, b),
        a.len() >= 5,
        a == b || a[0] != b[0] || a[3] != b[3],
{
    reveal_strlit("docker-");
    reveal_strlit("libpod-");
    reveal_strlit("cri-containerd-");
    reveal_strlit("crio-");
    assert forall|k: int| 0 < k < a.len() implies #[trigger] a[k] != b[0] || (k + 1 < a.len() && a[k
        + 1] != b[1]) by {
        if k == 1 {
        } else if k == 2 {
        } else if k == 3 {
        } else if k == 4 {
        } else if k == 5 {
        } else if k == 6 {
        } else if k == 7 {
        } else if k == 8 {
        } else if k == 9 {
        } else if k == 10 {
        } else if k == 11 {
        } else if k == 12 {
        } else if k == 13 {
        } else {
            assert(k == 14);
        }
    }
}

/// Between texts without a marker, a marker stands only where it was put.
proof fn lemma_marker_only_there(
    front: Seq<char>,
    m: Seq<char>,
    rest: Seq<char>,
    other: Seq<char>,
    j: int,
)
    requires
        is_marker(m),
        is_marker(other),
        unmarked(front),
        unmarked(rest),
        has_at(front + m + rest, other, j),
    ensures
        j == front.len(),
        other == m,
{
    let path = front + m + rest;
    let n = front.len() as int;
    let l = other.len();
    lemma_markers_apart(m, other);
    lemma_markers_apart(other, m);
    let found = path.subrange(j, j + l);
    assert(found == other);
    assert(path[n] == m[0] && path[n + 1] == m[1] && path[n + 3] == m[3]);
    if j + l <= n {
        assert(front.subrange(j, j + l) =~= found);
        assert(has_at(front, other, j));
        assert(false);
    } else if j >= n + m.len() {
        let k = j - n - m.len();
        assert(rest.subrange(k, k + l) =~= found);
        assert(has_at(rest, other, k));
        assert(false);
    } else if j < n {
        let k = n - j;
        assert(found[k] == path[n]);
        assert(other[k] == m[0]);
        if k + 1 < l {
            assert(found[k + 1] == path[n + 1]);
        }
        assert(false);
    } else if j > n {
        let k = j - n;
        assert(found[0] == path[j]);
        assert(path[j] == m[k]);
        if k + 1 < m.len() {
            assert(found[1] == path[j + 1]);
            assert(path[j + 1] == m[k + 1]);
        }
        assert(m[k] == other[0]);
        assert(false);
    } else {
        assert(found[0] == path[n] && found[3] == path[n + 3]);
    }
}

proof fn lemma_container_found(
    front: Seq<char>,
    m: Seq<char>,
    id: Seq<char>,
    tail: Seq<char>,
)
    requires
        is_marker(m),
        unmarked(front),
        unmarked(id + tail),
        id.len() == 12,
        forall|i: int| 0 <= i < 12 ==> digit_value(#[trigger] id[i], 16) is Some,
    ensures
        container_of(front + m + id + tail) == Some(id),
{
    let rest = id + tail;
    let path = front + m + rest;
    assert(front + m + id + tail =~= path);
    assert forall|other: Seq<char>| is_marker(other) && other != m implies #[trigger] container_at(
        path,
        other,
    ) is None by {
        crate::text::lemma_find_from(path, other, 0);
        if let Some(j) = crate::text::find(path, other) {
            lemma_marker_only_there(front, m, rest, other, j);
        }
    }
    assert forall|j: int| 0 <= j < front.len() implies !has_at(path, m, j) by {
        if has_at(path, m, j) {
            lemma_marker_only_there(front, m, rest, m, j);
        }
    }
    crate::text::lemma_found_first(front, m, rest);
    assert(after_str(path, m) == Some(rest));
    assert forall|i: int| 0 <= i < 12 implies digit_value(#[trigger] rest[i], 16) is Some by {
        assert(rest[i] == id[i]);
    }
    assert(rest.take(12) =~= id);
    assert(container_at(path, m) == Some(id));
    assert(is_marker("docker-"@) && is_marker("libpod-"@) && is_marker("cri-containerd-"@)
        && is_marker("crio-"@));
}

/// The unified hierarchy's line names the path, whatever other lines there are
/// and wherever it stands among them.
pub proof fn the_unified_line_names_the_path(ls: Seq<Seq<char>>, i: int, path: Seq<char>)
    requires
        0 <= i < ls.len(),
        forall|k: int| 0 <= k < ls.len() ==> crate::text::is_line(#[trigger] ls[k]),
        ls[i] == "0::"@ + path,
        !path.contains(':'),
        forall|k: int| 0 <= k < i ==> !crate::text::starts_with(#[trigger] ls[k], "0::"@),
    ensures
        cgroup_path(crate::text::unlines(ls)) == path,
{
    crate::text::lines_read_back(ls);
    crate::text::lemma_affixes("0::"@, path);
    crate::text::lemma_first_starting_is(ls, "0::"@, i);
    reveal_strlit("0::");
    assert("0::"@ + path =~= seq!['0', ':'] + seq![':'] + path);
    crate::text::lemma_last_field_is(seq!['0', ':'], ':', path);
}

/// Without that line it is systemd's own hierarchy that names the path.
pub proof fn else_the_line_of_systemd_names_the_path(
    ls: Seq<Seq<char>>,
    i: int,
    number: Seq<char>,
    path: Seq<char>,
)
    requires
        0 <= i < ls.len(),
        forall|k: int| 0 <= k < ls.len() ==> crate::text::is_line(#[trigger] ls[k]),
        ls[i] == number + ":name=systemd:"@ + path,
        !path.contains(':'),
        forall|k: int| 0 <= k < ls.len() ==> !crate::text::starts_with(#[trigger] ls[k], "0::"@),
        forall|k: int| 0 <= k < i ==> !contains(#[trigger] ls[k], ":name=systemd:"@),
    ensures
        cgroup_path(crate::text::unlines(ls)) == path,
{
    crate::text::lines_read_back(ls);
    crate::text::lemma_none_starting(ls, "0::"@);
    reveal_strlit(":name=systemd:");
    let key = ":name=systemd:"@;
    assert(ls[i].subrange(number.len() as int, number.len() as int + key.len()) =~= key);
    assert(has_at(ls[i], key, number.len() as int));
    crate::text::lemma_first_holding_is(ls, key, i);
    assert(ls[i] =~= number + key.drop_last() + seq![':'] + path);
    crate::text::lemma_last_field_is(number + key.drop_last(), ':', path);
}

proof fn lemma_body(path: Seq<char>)
    requires
        is_path(path),
    ensures
        cgroup_path("0::"@ + path + seq!['\n']) == path,
{
    let ls = seq!["0::"@ + path];
    reveal_strlit("0::");
    let l = ls[0];
    assert forall|k: int| 0 <= k < l.len() implies #[trigger] l[k] != '\n' && l[k] != '\r' by {
        if k >= 3 {
            assert(l[k] == path[k - 3]);
            assert(path.contains(path[k - 3]));
        }
    }
    assert(crate::text::is_line(l));
    the_unified_line_names_the_path(ls, 0, path);
    crate::text::lemma_unlines_front(ls);
    assert(ls.skip(1) =~= Seq::<Seq<char>>::empty());
    assert(crate::text::unlines(ls.skip(1)) =~= Seq::<char>::empty());
    assert(crate::text::unlines(ls) =~= "0::"@ + path + seq!['\n']);
}

/// A container belongs to its runtime's id, whichever runtime it is: a path in
/// which one of the markers is followed by at least twelve hexadecimal digits is
/// that of the container whose id begins with those twelve, whatever slice it lies
/// under and whatever the scope's name ends in.
pub proof fn a_marker_and_its_digits_name_a_container(
    front: Seq<char>,
    marker: Seq<char>,
    id: Seq<char>,
    tail: Seq<char>,
)
    requires
        marker == "docker-"@ || marker == "libpod-"@ || marker == "cri-containerd-"@ || marker
            == "crio-"@,
        unmarked(front),
        unmarked(id + tail),
        id.len() == 12,
        forall|i: int|
            0 <= i < 12 ==> ('0' <= #[trigger] id[i] <= '9' || 'a' <= id[i] <= 'f' || 'A' <= id[i]
                <= 'F'),
        is_path(front + marker + id + tail),
    ensures
        owner_of("0::"@ + (front + marker + id + tail) + seq!['\n']) == OwnerView::Container(id),
{
    let path = front + marker + id + tail;
    assert forall|i: int| 0 <= i < 12 implies digit_value(#[trigger] id[i], 16) is Some by {}
    lemma_container_found(front, marker, id, tail);
    lemma_body(path);
    a_container_is_never_a_service("0::"@ + path + seq!['\n']);
}

/// Without twelve such digits behind it, a marker names no container.
pub proof fn a_marker_without_digits_names_none(
    front: Seq<char>,
    marker: Seq<char>,
    rest: Seq<char>,
    k: int,
)
    requires
        is_marker(marker),
        unmarked(front),
        unmarked(rest),
        rest.len() < 12 || (0 <= k < 12 && !('0' <= rest[k] <= '9' || 'a' <= rest[k] <= 'f' || 'A'
            <= rest[k] <= 'F')),
        is_path(front + marker + rest),
    ensures
        !(owner_of("0::"@ + (front + marker + rest) + seq!['\n']) is Container),
{
    let path = front + marker + rest;
    lemma_body(path);
    assert forall|other: Seq<char>| is_marker(other) implies #[trigger] container_at(path, other) is None by {
        crate::text::lemma_find_from(path, other, 0);
        if let Some(j) = crate::text::find(path, other) {
            lemma_marker_only_there(front, marker, rest, other, j);
            assert(path.skip(j + other.len()) =~= rest);
            if rest.len() >= 12 {
                assert(digit_value(rest[k], 16) is None);
            }
        }
    }
    assert(is_marker("docker-"@) && is_marker("libpod-"@) && is_marker("cri-containerd-"@)
        && is_marker("crio-"@));
}

proof fn lemma_no_container(path: Seq<char>)
    requires
        unmarked(path),
    ensures
        container_of(path) is None,
{
    crate::text::lemma_find_is_contains(path, "docker-"@);
    crate::text::lemma_find_is_contains(path, "libpod-"@);
    crate::text::lemma_find_is_contains(path, "cri-containerd-"@);
    crate::text::lemma_find_is_contains(path, "crio-"@);
}

proof fn lemma_leaf(dir: Seq<char>, name: Seq<char>)
    requires
        name.len() > 0,
        !name.contains('/'),
    ensures
        leaf(dir + seq!['/'] + name) == name,
{
    assert forall|i: int| 0 <= i < name.len() implies #[trigger] name[i] != '/' by {
        assert(name.contains(name[i]));
    }
    crate::text::lemma_split_more(dir, '/', name);
    assert(split(dir, '/').push(name).last() == name);
}

/// A unit that ends in `.service`, outside of any user's session and any
/// container, is the service of that name.
pub proof fn a_service_is_named_by_its_unit(dir: Seq<char>, name: Seq<char>)
    requires
        ({
            let path = dir + seq!['/'] + (name + ".service"@);
            &&& is_path(path)
            &&& unmarked(path)
            &&& !contains(path, "/user.slice/"@)
            &&& !contains(path, "/user@"@)
        }),
        !name.contains('/'),
        !ends_with(name, ".service"@),
    ensures
        owner_of("0::"@ + (dir + seq!['/'] + (name + ".service"@)) + seq!['\n'])
            == OwnerView::Service(name),
{
    let full = name + ".service"@;
    let path = dir + seq!['/'] + full;
    reveal_strlit(".service");
    assert(!full.contains('/')) by {
        if full.contains('/') {
            let i = choose|i: int| 0 <= i < full.len() && full[i] == '/';
            if i < name.len() {
                assert(name[i] == '/');
            } else {
                assert(".service"@[i - name.len()] == '/');
            }
        }
    }
    lemma_body(path);
    lemma_no_container(path);
    lemma_leaf(dir, full);
    crate::text::lemma_affixes(name, ".service"@);
    crate::text::lemma_suffix_gone(name, ".service"@);
    reveal_strlit("");
    reveal_strlit("/");
    assert(path.len() > 1);
}

/// What runs in a user's session is an application of that user, named by its
/// own unit, whatever its unit ends in; the uid is that of the session.
pub proof fn an_application_belongs_to_its_session(
    front: Seq<char>,
    uid: u32,
    dir: Seq<char>,
    name: Seq<char>,
)
    requires
        ({
            let path = front + "/user@"@ + (dec(uid as nat) + ".service"@ + dir + seq!['/'] + name);
            &&& is_path(path)
            &&& unmarked(path)
        }),
        !contains(front, "/user@"@),
        name.len() > 0,
        !name.contains('/'),
    ensures
        ({
            let path = front + "/user@"@ + (dec(uid as nat) + ".service"@ + dir + seq!['/'] + name);
            owner_of("0::"@ + path + seq!['\n']) == (OwnerView::UserApp {
                unit: trim_end_str(name, ".scope"@),
                uid_hint: Some(uid),
            })
        }),
{
    let key = "/user@"@;
    let number = dec(uid as nat);
    let rest = number + ".service"@ + dir + seq!['/'] + name;
    let path = front + key + rest;
    reveal_strlit("/user@");
    reveal_strlit(".service");
    reveal_strlit("");
    reveal_strlit("/");
    crate::num::lemma_dec_digits(uid as nat);
    lemma_body(path);
    lemma_no_container(path);
    crate::text::lemma_nowhere_earlier(front, key, rest);
    assert(path.subrange(front.len() as int, front.len() as int + key.len()) =~= key);
    assert(has_at(path, key, front.len() as int));
    assert(contains(path, key));
    let lead = front + key + (number + ".service"@ + dir);
    assert(path =~= lead + seq!['/'] + name);
    lemma_leaf(lead, name);
    // The uid stands before the next session's name, if there is one.
    let inner = before_str(rest, key);
    let n = number.len() + 8;
    crate::text::lemma_find_from(rest, key, 0);
    assert forall|j: int| 0 <= j < n implies !has_at(rest, key, j) by {
        if has_at(rest, key, j) {
            assert(rest.subrange(j, j + key.len())[0] == rest[j]);
            if j < number.len() {
                assert(rest[j] == number[j]);
            } else {
                assert(rest[j] == ".service"@[j - number.len()]);
            }
        }
    }
    assert(inner.len() >= n) by {
        if let Some(j) = crate::text::find(rest, key) {
            assert(has_at(rest, key, j));
            assert(j >= n);
        }
    }
    let more = inner.skip(n as int);
    assert(inner =~= number + ".service"@ + more) by {
        assert forall|j: int| 0 <= j < n implies inner[j] == #[trigger] (number + ".service"@)[j] by {
            assert(inner[j] == rest[j]);
        }
    }
    assert(!contains(number, ".service"@)) by {
        if contains(number, ".service"@) {
            let j = choose|j: int| has_at(number, ".service"@, j);
            assert(number.subrange(j, j + 8)[0] == number[j]);
        }
    }
    crate::text::lemma_nowhere_earlier(number, ".service"@, more);
    assert(before_str(inner, ".service"@) == number);
    crate::num::dec_reads_back(uid as nat, 0xffff_ffff);
    assert(session_uid(path) == Some(uid));
    assert(path.len() > 1);
}

/// Below a user's slice but in no session, it is an application all the same,
/// of no uid that is known.
pub proof fn what_lies_in_the_users_slice_is_an_application(
    front: Seq<char>,
    dir: Seq<char>,
    name: Seq<char>,
)
    requires
        ({
            let path = front + "/user.slice/"@ + dir + seq!['/'] + name;
            &&& is_path(path)
            &&& unmarked(path)
            &&& !contains(path, "/user@"@)
        }),
        name.len() > 0,
        !name.contains('/'),
    ensures
        owner_of("0::"@ + (front + "/user.slice/"@ + dir + seq!['/'] + name) + seq!['\n']) == (
        OwnerView::UserApp { unit: trim_end_str(name, ".scope"@), uid_hint: None }),
{
    let key = "/user.slice/"@;
    let path = front + key + dir + seq!['/'] + name;
    reveal_strlit("/user.slice/");
    reveal_strlit("");
    reveal_strlit("/");
    lemma_body(path);
    lemma_no_container(path);
    assert(path.subrange(front.len() as int, front.len() as int + key.len()) =~= key);
    assert(has_at(path, key, front.len() as int));
    assert(path =~= (front + key + dir) + seq!['/'] + name);
    lemma_leaf(front + key + dir, name);
    crate::text::lemma_find_is_contains(path, "/user@"@);
    assert(path.len() > 1);
}

/// The root, and a body that says nothing, belong to nobody in particular.
pub proof fn the_root_belongs_to_nobody()
    ensures
        owner_of("0::/\n"@) is Process,
        owner_of(""@) is Process,
{
    reveal_strlit("0::/\n");
    reveal_strlit("0::");
    reveal_strlit("/");
    reveal_strlit("");
    let path = seq!['/'];
    assert("/"@ =~= path);
    assert(is_path(path));
    lemma_body(path);
    assert("0::"@ + path + seq!['\n'] =~= "0::/\n"@);
    assert(lines(""@) =~= seq![]);
}

/// A socket's link gives the socket's inode, and a link that is written in
/// another way gives none.
pub proof fn a_socket_link_gives_its_inode(n: u64, link: Seq<char>)
    ensures
        inode_of("socket:["@ + dec(n as nat) + "]"@) == Some(n),
        inode_of(link) is Some ==> link.len() >= 10 && link.take(8) == "socket:["@ && link.last()
            == ']',
        inode_of(link) matches Some(v) ==> crate::num::decimal(
            link.subrange(8, link.len() - 1),
            0xffff_ffff_ffff_ffff,
        ) == Some(v as nat),
{
    let number = dec(n as nat);
    reveal_strlit("socket:[");
    reveal_strlit("]");
    crate::text::lemma_affixes("socket:["@, number + "]"@);
    crate::text::lemma_affixes(number, "]"@);
    assert("socket:["@ + (number + "]"@) =~= "socket:["@ + number + "]"@);
    crate::num::dec_reads_back(n as nat, 0xffff_ffff_ffff_ffff);
    if inode_of(link) is Some {
        let rest = link.skip(8);
        assert(link.subrange(0, 8) =~= link.take(8));
        assert(rest.subrange(rest.len() - 1, rest.len() as int)[0] == rest.last());
        assert(rest.last() == ']');
        assert(rest.take(rest.len() - 1) =~= link.subrange(8, link.len() - 1));
        assert(rest.take(rest.len() - 1).len() > 0) by {
            let t = crate::num::without_plus(rest.take(rest.len() - 1));
            assert(t.len() > 0);
        }
    }
}

/// A process holds the socket that one of its descriptors is, and what is not a
/// process holds none.
pub proof fn a_process_holds_what_it_links_to(p: ScannedView, pid: u32, inode: u64, i: int)
    requires
        p.name == dec(pid as nat),
        0 <= i < p.links.len(),
        p.links[i] == "socket:["@ + dec(inode as nat) + "]"@,
    ensures
        p.holds(inode),
        p.pid() == Some(pid),
        p.holder().pid == pid,
{
    crate::num::dec_reads_back(pid as nat, 0xffff_ffff);
    a_socket_link_gives_its_inode(inode, p.links[i]);
}

/// A process that links to no socket of an inode does not hold it, and neither
/// does an entry that is no process.
pub proof fn nobody_holds_what_is_not_linked(p: ScannedView, inode: u64)
    ensures
        p.holds(inode) ==> exists|i: int|
            0 <= i < p.links.len() && inode_of(#[trigger] p.links[i]) == Some(inode),
        p.name.len() == 0 ==> !p.holds(inode),
        p.name.len() > 0 && !('0' <= p.name.last() <= '9') ==> !p.holds(inode),
{
    if p.holds(inode) && p.name.len() > 0 {
        let t = crate::num::without_plus(p.name);
        assert(t.len() > 0);
        assert(t.last() == p.name.last());
        assert(digit_value(t.last(), 10) is Some);
    }
}

/// What is said of a process is what was read of it: the name without the line's
/// end, or the pid where there is none; the executable; and the owner that its
/// cgroup names.
pub proof fn a_holder_is_what_was_read_of_it(p: ScannedView, pid: u32, name: Seq<char>)
    requires
        p.pid() == Some(pid),
    ensures
        p.holder().exe == p.exe,
        p.cgroup is None ==> p.holder().owner is Process,
        p.cgroup matches Some(b) ==> p.holder().owner == owner_of(b),
        p.comm is None ==> p.holder().comm == "pid:"@ + dec(pid as nat),
        p.comm == Some(name + seq!['\n']) && name.len() > 0 && !crate::text::is_whitespace(name[0])
            && !crate::text::is_whitespace(name.last()) ==> p.holder().comm == name,
{
    if p.comm == Some(name + seq!['\n']) && name.len() > 0 && !crate::text::is_whitespace(name[0])
        && !crate::text::is_whitespace(name.last()) {
        let l = name + seq!['\n'];
        assert(l.drop_last() =~= name);
        assert(l[0] == name[0]);
        assert(crate::text::trim_end(l) == crate::text::trim_end(name));
    }
}

/// A holder is called by its process name, and behind it in brackets by what it
/// belongs to, where that is something else.
pub proof fn a_holder_is_called_by_its_name(h: HolderView, name: Seq<char>, uid: Option<u32>)
    ensures
        h.owner is Process || h.owner is Unowned ==> h.label() == h.comm,
        h.owner == OwnerView::Service(name) && name != h.comm ==> h.label() == h.comm + " ("@
            + name + ")"@,
        h.owner == OwnerView::Container(name) && name != h.comm ==> h.label() == h.comm + " ("@
            + name + ")"@,
        h.owner == OwnerView::Service(h.comm) ==> h.label() == h.comm,
        h.owner == (OwnerView::UserApp { unit: name, uid_hint: uid }) && name != h.comm ==> h.label()
            == h.comm + " ("@ + name + ")"@,
{
}

/// Each kind of owner has a word of its own.
pub proof fn each_kind_has_its_own_word(a: OwnerView)
    ensures
        a is Service ==> a.kind() == "service"@,
        a is UserApp ==> a.kind() == "app"@,
        a is Container ==> a.kind() == "container"@,
        a is Process ==> a.kind() == "process"@,
        a is Unowned ==> a.kind() == "unowned"@,
{
}

proof fn lemma_none_holding(ls: Seq<Seq<char>>, p: Seq<char>)
    requires
        forall|k: int| 0 <= k < ls.len() ==> !contains(#[trigger] ls[k], p),
    ensures
        crate::text::first_holding(ls, p) is None,
    decreases ls.len(),
{
    if ls.len() > 0 {
        assert(!contains(ls[0], p));
        assert forall|k: int| 0 <= k < ls.skip(1).len() implies !contains(
            #[trigger] ls.skip(1)[k],
            p,
        ) by {
            assert(ls.skip(1)[k] == ls[k + 1]);
        }
        lemma_none_holding(ls.skip(1), p);
    }
}

/// Where neither the unified hierarchy nor systemd has a line, the first line names
/// the path, whatever follows it, and where there is no line there is no path.
pub proof fn failing_both_the_first_line_names_the_path(
    ls: Seq<Seq<char>>,
    front: Seq<char>,
    path: Seq<char>,
)
    requires
        ls.len() > 0,
        forall|k: int| 0 <= k < ls.len() ==> crate::text::is_line(#[trigger] ls[k]),
        ls[0] == front + seq![':'] + path,
        !path.contains(':'),
        forall|k: int| 0 <= k < ls.len() ==> !crate::text::starts_with(#[trigger] ls[k], "0::"@),
        forall|k: int| 0 <= k < ls.len() ==> !contains(#[trigger] ls[k], ":name=systemd:"@),
    ensures
        cgroup_path(crate::text::unlines(ls)) == path,
        cgroup_path(crate::text::unlines(seq![])) == ""@,
{
    crate::text::lines_read_back(ls);
    crate::text::lemma_none_starting(ls, "0::"@);
    lemma_none_holding(ls, ":name=systemd:"@);
    crate::text::lemma_last_field_is(front, ':', path);
    let none = Seq::<Seq<char>>::empty();
    crate::text::lines_read_back(none);
    crate::text::lemma_none_starting(none, "0::"@);
    lemma_none_holding(none, ":name=systemd:"@);
}

} // verus!
