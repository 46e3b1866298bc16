//! One attributed picture of the host's network activity.

use std::collections::HashMap;

use vstd::prelude::*;
use vstd::string::*;

use crate::addr::IpAddr;
use crate::json::{
    escape, escaped, every_value_is_written_as_json, is_json, lemma_escaped_front, members_text,
    quoted, text_or_null, value_texts, Json, Members,
};
use crate::ports::{builtin_range, EphemeralPorts};
use crate::proc_net::{
    host_order, labels_tell_tables_apart, machine_order, parse_table_in, rows, ByteOrder, Proto,
    Socket, State,
};
use crate::procs::{
    held, holders_by_inode, scanned_views, winner, Holder, HolderView, Owner, OwnerView,
    ScannedProcess, ScannedView,
};
use crate::services::{lookup, EntryView, ServiceNames};
use crate::text::{
    borrow_opt, copy, copy_opt, lemma_texts_push, lines, opt_string, same, texts,
};
use crate::visibility::{Visibility, VisibilityView};

verus! {

broadcast use vstd::std_specs::hash::group_hash_axioms;

// ---------------------------------------------------------------------------
// Flows
// ---------------------------------------------------------------------------

/// A socket plus who owns it.
#[derive(Debug)]
pub struct Flow {
    pub socket: Socket,
    pub holder: Option<Holder>,
    pub owner: Owner,
}

/// What a [`Flow`] says.
pub struct FlowView {
    pub socket: Socket,
    pub holder: Option<HolderView>,
    pub owner: OwnerView,
}

impl View for Flow {
    type V = FlowView;

    open spec fn view(&self) -> FlowView {
        FlowView {
            socket: self.socket,
            holder: match self.holder {
                Some(h) => Some(h@),
                None => None,
            },
            owner: self.owner@,
        }
    }
}

impl Clone for Flow {
    fn clone(&self) -> (r: Self)
        ensures
            r@ == self@,
    {
        Flow {
            socket: self.socket,
            holder: match &self.holder {
                Some(h) => Some(h.clone()),
                None => None,
            },
            owner: self.owner.clone(),
        }
    }
}

pub open spec fn flow_views(v: Seq<Flow>) -> Seq<FlowView> {
    Seq::new(v.len(), |i: int| v[i]@)
}

/// An address that never leaves the machine, or stands for none.
pub open spec fn host_only(a: IpAddr) -> bool {
    ||| a.loopback()
    ||| a.unspecified()
    ||| a.mapped() matches Some(m) && m.loopback()
}

/// Which way a connection was initiated.
#[derive(Debug, Clone, Copy, PartialEq, Eq, Structural)]
pub enum Direction {
    /// We dialled something off this machine.
    Outbound,
    /// Something dialled a port we listen on.
    Inbound,
    /// We dialled something on this machine, often the first hop of a path,
    /// e.g. an app into a local Tor SOCKS port.
    Loopback,
    /// A listening socket.
    Listening,
    /// A socket with no peer and not listening.
    Idle,
}

impl Direction {
    pub open spec fn name(self) -> Seq<char> {
        match self {
            Direction::Outbound => "outbound"@,
            Direction::Inbound => "inbound"@,
            Direction::Loopback => "loopback"@,
            Direction::Listening => "listening"@,
            Direction::Idle => "idle"@,
        }
    }

    /// Lower-case tag for the UI.
    pub fn tag(self) -> (r: &'static str)
        ensures
            r@ == self.name(),
    {
        match self {
            Direction::Outbound => "outbound",
            Direction::Inbound => "inbound",
            Direction::Loopback => "loopback",
            Direction::Listening => "listening",
            Direction::Idle => "idle",
        }
    }
}

/// The addresses that each listening port is bound to.
pub type Bound = Map<u16, Seq<IpAddr>>;

/// Whether a listener would have accepted a connection arriving at
/// `addr:port`. One bound to no address in particular takes them all.
pub open spec fn takes(bound: Bound, addr: IpAddr, port: u16) -> bool {
    bound.contains_key(port) && exists|i: int|
        0 <= i < bound[port].len() && answers(#[trigger] bound[port][i], addr)
}

/// Whether a listener bound to `b` answers at `addr`. A v4 address and its v6
/// mapping are one address.
pub open spec fn answers(b: IpAddr, addr: IpAddr) -> bool {
    b.unspecified() || b.flat() == addr.flat()
}

/// Which way a connection was initiated.
///
/// The tables do not record who dialled. What comes first decides: a listener;
/// a socket without a peer; a peer on this machine, for then nothing crossed an
/// interface; a half-open connection that we are accepting, or one whose local
/// socket a listener of this host would have accepted; a connection that the
/// kernel alone holds, on a port it would never hand out; and what is left was
/// dialled by us.
pub open spec fn way(s: Socket, bound: Bound, ports: EphemeralPorts) -> Direction {
    if s.state is Listen {
        Direction::Listening
    } else if !s.peered() && !(s.state is SynRecv) {
        Direction::Idle
    } else if host_only(s.remote_addr) {
        Direction::Loopback
    } else if s.state is SynRecv || takes(bound, s.local_addr, s.local_port) {
        Direction::Inbound
    } else if s.inode == 0 && ports.service(s.local_port) {
        Direction::Inbound
    } else {
        Direction::Outbound
    }
}

/// Whether a socket is somewhere the host accepts connections.
///
/// UDP never enters LISTEN: a UDP service is a bound socket with no peer, on a
/// port the kernel does not hand out.
pub open spec fn accepting(s: Socket, ports: EphemeralPorts) -> bool {
    match s.proto {
        Proto::Tcp | Proto::Tcp6 => s.state is Listen,
        Proto::Udp | Proto::Udp6 => !s.peered() && ports.service(s.local_port),
    }
}

impl FlowView {
    pub open spec fn actor(self) -> Seq<char> {
        match self.holder {
            Some(h) => h.label(),
            None => "unattributed"@,
        }
    }
}

/// Whether an address is one of this machine alone.
fn is_local(a: IpAddr) -> (r: bool)
    ensures
        r == host_only(a),
{
    if a.is_loopback() || a.is_unspecified() {
        return true;
    }
    match a.to_ipv4_mapped() {
        Some(m) => m.is_loopback(),
        None => false,
    }
}

/// Address equality across the v4/v6-mapped divide.
///
/// A dual-stack listener shows in `/proc/net/tcp6` as `::` while the accepted
/// connection shows its local address as `::ffff:203.0.113.7`.
fn same_addr(a: IpAddr, b: IpAddr) -> (r: bool)
    ensures
        r == (a.flat() == b.flat()),
{
    a.flattened() == b.flattened()
}

impl Flow {
    /// Best label for the thing at the near end.
    pub fn actor(&self) -> (r: String)
        ensures
            r@ == self@.actor(),
    {
        match &self.holder {
            Some(h) => h.label(),
            None => String::from_str("unattributed"),
        }
    }

    /// True when the peer is off this machine, as opposed to loopback chatter.
    ///
    /// This says off-host, not outbound. Use [`Flow::direction`] for which way
    /// the arrow points.
    pub fn leaves_host(&self) -> (r: bool)
        ensures
            r == (self.socket.peered() && !host_only(self.socket.remote_addr)),
    {
        self.socket.has_peer() && !is_local(self.socket.remote_addr)
    }

    /// Whether this socket is somewhere the host accepts connections.
    pub fn accepts_connections(&self, ports: EphemeralPorts) -> (r: bool)
        ensures
            r == accepting(self.socket, ports),
    {
        match self.socket.proto {
            Proto::Tcp | Proto::Tcp6 => self.socket.state == State::Listen,
            Proto::Udp | Proto::Udp6 => !self.socket.has_peer() && ports.is_service_port(
                self.socket.local_port,
            ),
        }
    }

    /// Which way this connection was initiated.
    pub fn direction(&self, listening: &Listeners) -> (r: Direction)
        ensures
            r == way(self.socket, listening@, listening.range()),
    {
        if self.socket.state == State::Listen {
            return Direction::Listening;
        }
        if !self.socket.has_peer() && self.socket.state != State::SynRecv {
            return Direction::Idle;
        }
        if is_local(self.socket.remote_addr) {
            return Direction::Loopback;
        }
        if self.socket.state == State::SynRecv || listening.accepts(
            self.socket.local_addr,
            self.socket.local_port,
        ) {
            return Direction::Inbound;
        }
        if self.socket.inode == 0 && listening.ports.is_service_port(self.socket.local_port) {
            return Direction::Inbound;
        }
        Direction::Outbound
    }
}

// ---------------------------------------------------------------------------
// Listeners
// ---------------------------------------------------------------------------

/// Where this host accepts connections.
///
/// Port alone is not enough. A listener bound to `127.0.0.1:8080` accepts
/// nothing from the network, so an outbound connection that happens to be
/// assigned local port 8080 on a real interface is not inbound.
#[derive(Debug)]
pub struct Listeners {
    by_port: HashMap<u16, Vec<IpAddr>>,
    /// The kernel's outgoing-connection range, for the orphan rule in
    /// [`Flow::direction`].
    pub ports: EphemeralPorts,
}

impl View for Listeners {
    type V = Bound;

    closed spec fn view(&self) -> Bound {
        bound_view(self.by_port@)
    }
}

impl Listeners {
    /// The range the kernel hands out of.
    pub closed spec fn range(self) -> EphemeralPorts {
        self.ports
    }
}

pub open spec fn bound_view(m: Map<u16, Vec<IpAddr>>) -> Bound {
    Map::new(|p: u16| m.contains_key(p), |p: u16| m[p]@)
}

/// What one more row adds to the listeners: its address, where it is one.
pub open spec fn listened(bound: Bound, s: Socket) -> Bound {
    if s.state is Listen {
        let at = if bound.contains_key(s.local_port) {
            bound[s.local_port]
        } else {
            seq![]
        };
        if at.contains(s.local_addr) {
            bound
        } else {
            bound.insert(s.local_port, at.push(s.local_addr))
        }
    } else {
        bound
    }
}

/// Where a host with these sockets listens.
pub open spec fn listening(flows: Seq<FlowView>) -> Bound
    decreases flows.len(),
{
    if flows.len() == 0 {
        Map::empty()
    } else {
        listened(listening(flows.drop_last()), flows.last().socket)
    }
}

fn lists_addr(v: &Vec<IpAddr>, a: IpAddr) -> (r: bool)
    ensures
        r == v@.contains(a),
{
    let mut i: usize = 0;
    while i < v.len()
        invariant
            i <= v@.len(),
            forall|k: int| 0 <= k < i ==> v@[k] != a,
        decreases v@.len() - i,
    {
        if v[i] == a {
            return true;
        }
        i += 1;
    }
    false
}

fn note_listener(by_port: &mut HashMap<u16, Vec<IpAddr>>, s: &Socket)
    ensures
        bound_view(final(by_port)@) == listened(bound_view(old(by_port)@), *s),
{
    let ghost was = by_port@;
    if s.state == State::Listen {
        let mut v: Vec<IpAddr> = match by_port.remove(&s.local_port) {
            Some(v) => v,
            None => Vec::new(),
        };
        let ghost at = v@;
        if !lists_addr(&v, s.local_addr) {
            v.push(s.local_addr);
        }
        by_port.insert(s.local_port, v);
        assert(by_port@ =~= was.insert(s.local_port, v));
        proof {
            let b = bound_view(was);
            if b.contains_key(s.local_port) {
                assert(at == b[s.local_port]);
            }
            assert(bound_view(by_port@) =~= listened(b, *s));
        }
    }
}

impl Default for Listeners {
    /// No listener, and the kernel's own range.
    fn default() -> (r: Self)
        ensures
            r@ == Map::<u16, Seq<IpAddr>>::empty(),
            r.range() == builtin_range(),
    {
        let r: Listeners = Listeners { by_port: HashMap::new(), ports: EphemeralPorts::default() };
        assert(r@ =~= Map::<u16, Seq<IpAddr>>::empty());
        r
    }
}

impl Clone for Listeners {
    fn clone(&self) -> (r: Self)
        ensures
            r@ == self@,
            r.range() == self.range(),
    {
        Listeners { by_port: self.by_port.clone(), ports: self.ports }
    }
}

impl Listeners {
    /// Build from a snapshot's LISTEN rows.
    pub fn from_flows(flows: &[Flow], ports: EphemeralPorts) -> (r: Self)
        ensures
            r@ == listening(flow_views(flows@)),
            r.range() == ports,
    {
        let mut by_port: HashMap<u16, Vec<IpAddr>> = HashMap::new();
        let ghost all = flow_views(flows@);
        let mut i: usize = 0;
        assert(all.take(0) =~= Seq::<FlowView>::empty());
        assert(bound_view(by_port@) =~= Map::<u16, Seq<IpAddr>>::empty());
        while i < flows.len()
            invariant
                i <= flows@.len(),
                all == flow_views(flows@),
                bound_view(by_port@) == listening(all.take(i as int)),
            decreases flows@.len() - i,
        {
            assert(all.take(i + 1).drop_last() =~= all.take(i as int));
            assert(all.take(i + 1).last() == flows@[i as int]@);
            note_listener(&mut by_port, &flows[i].socket);
            i += 1;
        }
        assert(all.take(i as int) =~= all);
        Listeners { by_port, ports }
    }

    /// True when a listener on this host would have accepted a connection
    /// arriving at `addr:port`.
    pub fn accepts(&self, addr: IpAddr, port: u16) -> (r: bool)
        ensures
            r == takes(self@, addr, port),
    {
        let v: &Vec<IpAddr> = match self.by_port.get(&port) {
            Some(v) => v,
            None => {
                return false;
            },
        };
        assert(self@.contains_key(port) && self@[port] == v@);
        let mut i: usize = 0;
        while i < v.len()
            invariant
                i <= v@.len(),
                self@.contains_key(port),
                self@[port] == v@,
                forall|k: int| 0 <= k < i ==> !answers(#[trigger] v@[k], addr),
            decreases v@.len() - i,
        {
            if v[i].is_unspecified() || same_addr(v[i], addr) {
                assert(answers(self@[port][i as int], addr));
                return true;
            }
            i += 1;
        }
        false
    }

    /// How many distinct ports are listening, the header count.
    pub fn len(&self) -> (r: usize)
        ensures
            r == self@.dom().len(),
    {
        assert(self@.dom() =~= self.by_port@.dom());
        self.by_port.len()
    }

    /// Whether nothing is listening.
    pub fn is_empty(&self) -> (r: bool)
        ensures
            r == (self@.dom().len() == 0),
    {
        assert(self@.dom() =~= self.by_port@.dom());
        self.by_port.len() == 0
    }
}

// ---------------------------------------------------------------------------
// Local services
// ---------------------------------------------------------------------------

/// A service on this host that other local software connects through.
///
/// Detected, never listed. What identifies a local service is that this
/// machine listens on the port; the process holding the socket is its name,
/// the system's own `/etc/services` supplies a fallback label, and the port
/// number is the last resort, so an unrecognised service still appears.
#[derive(Debug)]
pub struct LocalService {
    pub port: u16,
    pub proto: &'static str,
    /// The process holding the listening socket, when it is visible.
    pub actor: Option<String>,
    pub kind: &'static str,
    /// The name `/etc/services` gives this port, if any.
    pub service: Option<String>,
    /// Local connections into this port right now.
    pub clients: usize,
    /// Whether this service itself has connections leaving the machine.
    ///
    /// This is what separates a forwarding hop from a terminus, without naming
    /// either: traffic into a proxy continues outward through that proxy's own
    /// sockets, while traffic into a database stops there.
    pub forwards: bool,
}

/// What a [`LocalService`] says.
pub struct ServiceView {
    pub port: u16,
    pub proto: Seq<char>,
    pub actor: Option<Seq<char>>,
    pub kind: Seq<char>,
    pub service: Option<Seq<char>>,
    pub clients: nat,
    pub forwards: bool,
}

impl View for LocalService {
    type V = ServiceView;

    open spec fn view(&self) -> ServiceView {
        ServiceView {
            port: self.port,
            proto: self.proto@,
            actor: opt_string(self.actor),
            kind: self.kind@,
            service: opt_string(self.service),
            clients: self.clients as nat,
            forwards: self.forwards,
        }
    }
}

impl Clone for LocalService {
    fn clone(&self) -> (r: Self)
        ensures
            r@ == self@,
    {
        LocalService {
            port: self.port,
            proto: self.proto,
            actor: copy_opt(&self.actor),
            kind: self.kind,
            service: copy_opt(&self.service),
            clients: self.clients,
            forwards: self.forwards,
        }
    }
}

pub open spec fn service_views(v: Seq<LocalService>) -> Seq<ServiceView> {
    Seq::new(v.len(), |i: int| v[i]@)
}

/// Whether a row is of the same port and table as one of these.
pub open spec fn door_known(doors: Seq<FlowView>, s: Socket) -> bool {
    exists|i: int|
        0 <= i < doors.len() && (#[trigger] doors[i]).socket.local_port == s.local_port
            && doors[i].socket.proto == s.proto
}

/// The rows on which this host accepts connections, the first for each port
/// and table.
pub open spec fn doors(flows: Seq<FlowView>, ports: EphemeralPorts) -> Seq<FlowView>
    decreases flows.len(),
{
    if flows.len() == 0 {
        seq![]
    } else {
        let before = doors(flows.drop_last(), ports);
        if accepting(flows.last().socket, ports) && !door_known(before, flows.last().socket) {
            before.push(flows.last())
        } else {
            before
        }
    }
}

/// Whether something of that name has a connection we dialled off this
/// machine.
pub open spec fn goes_out(
    flows: Seq<FlowView>,
    bound: Bound,
    ports: EphemeralPorts,
    actor: Seq<char>,
) -> bool {
    exists|i: int|
        0 <= i < flows.len() && way((#[trigger] flows[i]).socket, bound, ports) is Outbound
            && flows[i].actor() == actor
}

/// Whether a row is a local connection into a port.
pub open spec fn calls(
    s: Socket,
    bound: Bound,
    ports: EphemeralPorts,
    port: u16,
    proto: Proto,
) -> bool {
    way(s, bound, ports) is Loopback && s.peered() && s.remote_port == port && s.proto == proto
}

/// How many of the rows are local connections into a port.
pub open spec fn callers(
    flows: Seq<FlowView>,
    bound: Bound,
    ports: EphemeralPorts,
    port: u16,
    proto: Proto,
) -> nat
    decreases flows.len(),
{
    if flows.len() == 0 {
        0
    } else {
        callers(flows.drop_last(), bound, ports, port, proto) + if calls(
            flows.last().socket,
            bound,
            ports,
            port,
            proto,
        ) {
            1nat
        } else {
            0
        }
    }
}

/// The service behind a row on which this host accepts connections.
pub open spec fn service_at(
    door: FlowView,
    flows: Seq<FlowView>,
    names: Seq<EntryView>,
    ports: EphemeralPorts,
) -> ServiceView {
    let s = door.socket;
    let bound = listening(flows);
    let actor = match door.holder {
        Some(h) => Some(h.label()),
        None => None,
    };
    ServiceView {
        port: s.local_port,
        proto: s.proto.name(),
        actor,
        kind: door.owner.kind(),
        service: lookup(names, s.local_port, s.proto.carrier()),
        clients: callers(flows, bound, ports, s.local_port, s.proto),
        forwards: actor matches Some(a) && goes_out(flows, bound, ports, a),
    }
}

pub open spec fn services_at(
    doors: Seq<FlowView>,
    flows: Seq<FlowView>,
    names: Seq<EntryView>,
    ports: EphemeralPorts,
) -> Seq<ServiceView> {
    Seq::new(doors.len(), |i: int| service_at(doors[i], flows, names, ports))
}

/// The services of a host.
pub open spec fn services(
    flows: Seq<FlowView>,
    names: Seq<EntryView>,
    ports: EphemeralPorts,
) -> Seq<ServiceView> {
    services_at(doors(flows, ports), flows, names, ports)
}

fn has_egress(flows: &[Flow], listening: &Listeners, actor: &str) -> (r: bool)
    ensures
        r == goes_out(flow_views(flows@), listening@, listening.range(), actor@),
{
    let ghost all = flow_views(flows@);
    let mut i: usize = 0;
    while i < flows.len()
        invariant
            i <= flows@.len(),
            all == flow_views(flows@),
            forall|k: int|
                0 <= k < i ==> !(way((#[trigger] all[k]).socket, listening@, listening.range())
                    is Outbound && all[k].actor() == actor@),
        decreases flows@.len() - i,
    {
        assert(all[i as int] == flows@[i as int]@);
        if flows[i].direction(listening) == Direction::Outbound && same(
            flows[i].actor().as_str(),
            actor,
        ) {
            assert(goes_out(all, listening@, listening.range(), actor@));
            return true;
        }
        i += 1;
    }
    false
}

fn count_callers(flows: &[Flow], listening: &Listeners, port: u16, proto: Proto) -> (r: usize)
    ensures
        r == callers(flow_views(flows@), listening@, listening.range(), port, proto),
{
    let ghost all = flow_views(flows@);
    let mut n: usize = 0;
    let mut i: usize = 0;
    assert(all.take(0) =~= Seq::<FlowView>::empty());
    while i < flows.len()
        invariant
            i <= flows@.len(),
            all == flow_views(flows@),
            n <= i,
            n == callers(all.take(i as int), listening@, listening.range(), port, proto),
        decreases flows@.len() - i,
    {
        assert(all.take(i + 1).drop_last() =~= all.take(i as int));
        assert(all.take(i + 1).last() == flows@[i as int]@);
        let f: &Flow = &flows[i];
        if f.direction(listening) == Direction::Loopback && f.socket.has_peer()
            && f.socket.remote_port == port && f.socket.proto == proto {
            n += 1;
        }
        i += 1;
    }
    assert(all.take(i as int) =~= all);
    n
}

fn service_known(out: &Vec<LocalService>, port: u16, proto: &str) -> (r: bool)
    ensures
        r == exists|i: int|
            0 <= i < out@.len() && (#[trigger] out@[i]).port == port && out@[i].proto@ == proto@,
{
    let mut i: usize = 0;
    while i < out.len()
        invariant
            i <= out@.len(),
            forall|k: int|
                0 <= k < i ==> !((#[trigger] out@[k]).port == port && out@[k].proto@ == proto@),
        decreases out@.len() - i,
    {
        if out[i].port == port && same(out[i].proto, proto) {
            return true;
        }
        i += 1;
    }
    false
}

proof fn lemma_known_alike(
    out: Seq<LocalService>,
    d: Seq<FlowView>,
    flows: Seq<FlowView>,
    names: Seq<EntryView>,
    ports: EphemeralPorts,
    s: Socket,
)
    requires
        service_views(out) == services_at(d, flows, names, ports),
    ensures
        door_known(d, s) <==> exists|i: int|
            0 <= i < out.len() && (#[trigger] out[i]).port == s.local_port && out[i].proto@
                == s.proto.name(),
{
    assert(out.len() == service_views(out).len());
    assert forall|i: int| 0 <= i < out.len() implies (#[trigger] out[i]).port
        == d[i].socket.local_port && (out[i].proto@ == s.proto.name() <==> d[i].socket.proto
        == s.proto) by {
        assert(service_views(out)[i] == out[i]@);
        labels_tell_tables_apart(d[i].socket.proto, s.proto);
    }
    if door_known(d, s) {
        let i = choose|i: int|
            0 <= i < d.len() && (#[trigger] d[i]).socket.local_port == s.local_port
                && d[i].socket.proto == s.proto;
        assert(out[i].port == s.local_port);
    }
    if exists|i: int|
        0 <= i < out.len() && (#[trigger] out[i]).port == s.local_port && out[i].proto@
            == s.proto.name() {
        let i = choose|i: int|
            0 <= i < out.len() && (#[trigger] out[i]).port == s.local_port && out[i].proto@
                == s.proto.name();
        assert(d[i].socket.proto == s.proto);
    }
}

/// Every port this host listens on, with who holds it and whether it forwards.
/// See [`LocalService`].
pub fn local_services(flows: &[Flow], names: &ServiceNames, ports: EphemeralPorts) -> (r: Vec<
    LocalService,
>)
    ensures
        service_views(r@) == services(flow_views(flows@), names@, ports),
{
    let listening: Listeners = Listeners::from_flows(flows, ports);
    let ghost all = flow_views(flows@);
    let mut out: Vec<LocalService> = Vec::new();
    let mut i: usize = 0;
    assert(all.take(0) =~= Seq::<FlowView>::empty());
    assert(service_views(out@) =~= services_at(seq![], all, names@, ports));
    while i < flows.len()
        invariant
            i <= flows@.len(),
            all == flow_views(flows@),
            listening@ == crate::snapshot::listening(all),
            listening.range() == ports,
            service_views(out@) == services_at(doors(all.take(i as int), ports), all, names@, ports),
        decreases flows@.len() - i,
    {
        assert(all.take(i + 1).drop_last() =~= all.take(i as int));
        assert(all.take(i + 1).last() == flows@[i as int]@);
        let f: &Flow = &flows[i];
        let ghost d = doors(all.take(i as int), ports);
        proof {
            lemma_known_alike(out@, d, all, names@, ports, f.socket);
        }
        if f.accepts_connections(ports) && !service_known(
            &out,
            f.socket.local_port,
            f.socket.proto.label(),
        ) {
            let actor: Option<String> = match &f.holder {
                Some(h) => Some(h.label()),
                None => None,
            };
            let forwards: bool = match &actor {
                Some(a) => has_egress(flows, &listening, a.as_str()),
                None => false,
            };
            let service: Option<String> = match names.name(
                f.socket.local_port,
                f.socket.proto.transport(),
            ) {
                Some(n) => Some(copy(n)),
                None => None,
            };
            let clients: usize = count_callers(
                flows,
                &listening,
                f.socket.local_port,
                f.socket.proto,
            );
            let ghost before = out@;
            let v: LocalService = LocalService {
                port: f.socket.local_port,
                proto: f.socket.proto.label(),
                actor,
                kind: f.owner.kind(),
                service,
                clients,
                forwards,
            };
            assert(v@ == service_at(f@, all, names@, ports));
            out.push(v);
            assert(service_views(out@) =~= service_views(before).push(v@));
            assert(services_at(d.push(f@), all, names@, ports) =~= services_at(
                d,
                all,
                names@,
                ports,
            ).push(v@));
        }
        i += 1;
    }
    assert(all.take(i as int) =~= all);
    out
}

// ---------------------------------------------------------------------------
// Collecting
// ---------------------------------------------------------------------------

/// The texts of the socket tables. `None` stands for one that could not be
/// read.
#[derive(Debug)]
pub struct NetTables {
    pub tcp: Option<String>,
    pub tcp6: Option<String>,
    pub udp: Option<String>,
    pub udp6: Option<String>,
}

/// The rows of a table, none where it could not be read.
pub open spec fn table_rows(order: ByteOrder, proto: Proto, text: Option<Seq<char>>) -> Seq<Socket> {
    match text {
        Some(t) => rows(order, proto, lines(t)),
        None => seq![],
    }
}

/// The rows of every table.
pub open spec fn all_rows(order: ByteOrder, tables: NetTables) -> Seq<Socket> {
    table_rows(order, Proto::Tcp, opt_string(tables.tcp)) + table_rows(
        order,
        Proto::Tcp6,
        opt_string(tables.tcp6),
    ) + table_rows(order, Proto::Udp, opt_string(tables.udp)) + table_rows(
        order,
        Proto::Udp6,
        opt_string(tables.udp6),
    )
}

/// A row and the process it is attributed to.
pub open spec fn flow_of(scan: Seq<ScannedView>, s: Socket) -> FlowView {
    let holder = winner(scan, s.inode);
    FlowView {
        socket: s,
        holder,
        owner: match holder {
            Some(h) => h.owner,
            None => OwnerView::Unowned,
        },
    }
}

pub open spec fn flows_of(scan: Seq<ScannedView>, rows: Seq<Socket>) -> Seq<FlowView> {
    Seq::new(rows.len(), |i: int| flow_of(scan, rows[i]))
}

fn add_rows(
    out: &mut Vec<Flow>,
    order: ByteOrder,
    proto: Proto,
    text: &Option<String>,
    holders: &HashMap<u64, Holder>,
    scan: &Vec<ScannedProcess>,
)
    requires
        forall|inode: u64| #[trigger]
            held(holders@, inode) == winner(scanned_views(scan@), inode),
    ensures
        flow_views(final(out)@) == flow_views(old(out)@) + flows_of(
            scanned_views(scan@),
            table_rows(order, proto, opt_string(*text)),
        ),
{
    let ghost start = flow_views(out@);
    let ghost view = scanned_views(scan@);
    let sockets: Vec<Socket> = match text {
        Some(t) => parse_table_in(order, proto, t.as_str()),
        None => Vec::new(),
    };
    let mut i: usize = 0;
    assert(flow_views(out@) =~= start + flows_of(view, sockets@.take(0)));
    while i < sockets.len()
        invariant
            i <= sockets@.len(),
            view == scanned_views(scan@),
            forall|inode: u64| #[trigger] held(holders@, inode) == winner(view, inode),
            flow_views(out@) == start + flows_of(view, sockets@.take(i as int)),
        decreases sockets@.len() - i,
    {
        let socket: Socket = sockets[i];
        assert(held(holders@, socket.inode) == winner(view, socket.inode));
        let (holder, owner): (Option<Holder>, Owner) = match holders.get(&socket.inode) {
            Some(h) => (Some(h.clone()), h.owner.clone()),
            None => (None, Owner::Unowned),
        };
        let f: Flow = Flow { socket, holder, owner };
        assert(f@ == flow_of(view, socket));
        let ghost before = out@;
        out.push(f);
        assert(flow_views(out@) =~= flow_views(before).push(f@));
        assert(flows_of(view, sockets@.take(i + 1)) =~= flows_of(
            view,
            sockets@.take(i as int),
        ).push(f@));
        assert(flow_views(out@) =~= start + flows_of(view, sockets@.take(i + 1)));
        i += 1;
    }
    assert(sockets@.take(i as int) =~= sockets@);
}

/// Attribute each row of every socket table of a machine with the given byte
/// order.
pub fn collect_in(order: ByteOrder, scan: &Vec<ScannedProcess>, tables: &NetTables) -> (r: Vec<
    Flow,
>)
    ensures
        flow_views(r@) == flows_of(scanned_views(scan@), all_rows(order, *tables)),
{
    let holders: HashMap<u64, Holder> = holders_by_inode(scan);
    let mut out: Vec<Flow> = Vec::new();
    let ghost view = scanned_views(scan@);
    let ghost a = table_rows(order, Proto::Tcp, opt_string(tables.tcp));
    let ghost b = table_rows(order, Proto::Tcp6, opt_string(tables.tcp6));
    let ghost c = table_rows(order, Proto::Udp, opt_string(tables.udp));
    let ghost d = table_rows(order, Proto::Udp6, opt_string(tables.udp6));
    add_rows(&mut out, order, Proto::Tcp, &tables.tcp, &holders, scan);
    assert(flow_views(out@) =~= flows_of(view, a));
    add_rows(&mut out, order, Proto::Tcp6, &tables.tcp6, &holders, scan);
    assert(flow_views(out@) =~= flows_of(view, a + b));
    add_rows(&mut out, order, Proto::Udp, &tables.udp, &holders, scan);
    assert(flow_views(out@) =~= flows_of(view, a + b + c));
    add_rows(&mut out, order, Proto::Udp6, &tables.udp6, &holders, scan);
    assert(flow_views(out@) =~= flows_of(view, a + b + c + d));
    out
}

/// Attribute each row of every socket table of this machine.
pub fn collect(scan: &Vec<ScannedProcess>, tables: &NetTables) -> (r: Vec<Flow>)
    ensures
        flow_views(r@) == flows_of(scanned_views(scan@), all_rows(machine_order(), *tables)),
{
    collect_in(host_order(), scan, tables)
}

// ---------------------------------------------------------------------------
// The document
// ---------------------------------------------------------------------------

/// What the instrument check found, as a JSON object.
pub open spec fn visibility_json(v: VisibilityView) -> Json {
    Json::Object(
        seq![
            ("sight"@, Json::Text(v.sight.name())),
            ("trustworthy"@, Json::Truth(v.sight.trusted())),
            ("headline"@, Json::Text(v.sight.sentence())),
            ("evidence"@, Json::Text(v.evidence)),
            ("remedy"@, text_or_null(v.remedy)),
            ("android"@, Json::Truth(v.android)),
        ],
    )
}

/// One row, as a JSON object.
pub open spec fn flow_json(f: FlowView, bound: Bound, ports: EphemeralPorts) -> Json {
    let s = f.socket;
    Json::Object(
        seq![
            ("proto"@, Json::Text(s.proto.name())),
            ("state"@, Json::Text(s.state.spelling())),
            ("local"@, Json::Text(s.local_addr.spelling())),
            ("lport"@, Json::Number(s.local_port as nat)),
            ("remote"@, Json::Text(s.remote_addr.spelling())),
            ("rport"@, Json::Number(s.remote_port as nat)),
            ("inode"@, Json::Number(s.inode as nat)),
            ("uid"@, Json::Number(s.uid as nat)),
            ("actor"@, Json::Text(f.actor())),
            ("kind"@, Json::Text(f.owner.kind())),
            ("pid"@, Json::Number(f.pid() as nat)),
            ("exe"@, Json::Text(f.exe())),
            ("leaves"@, Json::Truth(way(s, bound, ports) is Outbound)),
            ("listening"@, Json::Truth(accepting(s, ports))),
            ("dir"@, Json::Text(way(s, bound, ports).name())),
        ],
    )
}

/// One service, as a JSON object.
pub open spec fn service_json(v: ServiceView) -> Json {
    Json::Object(
        seq![
            ("port"@, Json::Number(v.port as nat)),
            ("proto"@, Json::Text(v.proto)),
            ("actor"@, Json::Text(or_empty(v.actor))),
            ("kind"@, Json::Text(v.kind)),
            ("service"@, Json::Text(or_empty(v.service))),
            ("clients"@, Json::Number(v.clients)),
            ("forwards"@, Json::Truth(v.forwards)),
        ],
    )
}

pub open spec fn or_empty(o: Option<Seq<char>>) -> Seq<char> {
    match o {
        Some(s) => s,
        None => ""@,
    }
}

impl FlowView {
    /// The pid of the holder, zero where there is none.
    pub open spec fn pid(self) -> u32 {
        match self.holder {
            Some(h) => h.pid,
            None => 0,
        }
    }

    /// The executable of the holder, empty where it is not known.
    pub open spec fn exe(self) -> Seq<char> {
        match self.holder {
            Some(h) => or_empty(h.exe),
            None => ""@,
        }
    }
}

pub open spec fn flow_jsons(
    flows: Seq<FlowView>,
    bound: Bound,
    ports: EphemeralPorts,
) -> Seq<Json> {
    Seq::new(flows.len(), |i: int| flow_json(flows[i], bound, ports))
}

pub open spec fn service_jsons(v: Seq<ServiceView>) -> Seq<Json> {
    Seq::new(v.len(), |i: int| service_json(v[i]))
}

/// The whole picture, as a JSON value.
pub open spec fn picture(
    flows: Seq<FlowView>,
    names: Seq<EntryView>,
    ports: EphemeralPorts,
    sight: VisibilityView,
) -> Json {
    Json::Object(
        seq![
            ("visibility"@, visibility_json(sight)),
            ("flows"@, Json::List(flow_jsons(flows, listening(flows), ports))),
            ("services"@, Json::List(service_jsons(services(flows, names, ports)))),
        ],
    )
}

/// The whole picture, as a JSON document.
pub open spec fn document(
    flows: Seq<FlowView>,
    names: Seq<EntryView>,
    ports: EphemeralPorts,
    sight: VisibilityView,
) -> Seq<char> {
    picture(flows, names, ports, sight).text()
}

fn visibility_text(v: &Visibility) -> (r: String)
    ensures
        r@ == visibility_json(v@).text(),
{
    let mut out: Members = Members::new();
    out.put_text("sight", v.sight.tag());
    out.put_truth("trustworthy", v.sight.can_be_trusted());
    out.put_text("headline", v.headline().as_str());
    out.put_text("evidence", v.evidence.as_str());
    match &v.remedy {
        Some(t) => out.put_text("remedy", t.as_str()),
        None => out.put_null("remedy"),
    }
    out.put_truth("android", v.android);
    assert(out@ =~= visibility_json(v@)->Object_0);
    out.close()
}

fn or_none(o: &Option<String>) -> (r: &str)
    ensures
        r@ == or_empty(opt_string(*o)),
{
    match borrow_opt(o) {
        Some(s) => s,
        None => "",
    }
}

fn flow_text(f: &Flow, listening: &Listeners, ports: EphemeralPorts) -> (r: String)
    requires
        listening.range() == ports,
    ensures
        r@ == flow_json(f@, listening@, ports).text(),
{
    let sk: &Socket = &f.socket;
    let dir: Direction = f.direction(listening);
    let pid: u32 = match &f.holder {
        Some(h) => h.pid,
        None => 0,
    };
    let exe: &str = match &f.holder {
        Some(h) => or_none(&h.exe),
        None => "",
    };
    let mut out: Members = Members::new();
    out.put_text("proto", sk.proto.label());
    out.put_text("state", sk.state.to_text().as_str());
    out.put_text("local", sk.local_addr.to_text().as_str());
    out.put_number("lport", sk.local_port as u64);
    out.put_text("remote", sk.remote_addr.to_text().as_str());
    out.put_number("rport", sk.remote_port as u64);
    out.put_number("inode", sk.inode);
    out.put_number("uid", sk.uid as u64);
    out.put_text("actor", f.actor().as_str());
    out.put_text("kind", f.owner.kind());
    out.put_number("pid", pid as u64);
    out.put_text("exe", exe);
    out.put_truth("leaves", dir == Direction::Outbound);
    out.put_truth("listening", f.accepts_connections(ports));
    out.put_text("dir", dir.tag());
    assert(out@ =~= flow_json(f@, listening@, ports)->Object_0);
    out.close()
}

fn service_text(v: &LocalService) -> (r: String)
    ensures
        r@ == service_json(v@).text(),
{
    let mut out: Members = Members::new();
    out.put_number("port", v.port as u64);
    out.put_text("proto", v.proto);
    out.put_text("actor", or_none(&v.actor));
    out.put_text("kind", v.kind);
    out.put_text("service", or_none(&v.service));
    out.put_number("clients", v.clients as u64);
    out.put_truth("forwards", v.forwards);
    assert(out@ =~= service_json(v@)->Object_0);
    out.close()
}

/// Render flows as JSON for a front end.
///
/// The visibility assessment is required rather than an optional extra: an
/// empty list must not be rendered as a fact, so a caller that does not check
/// the instrument does not get the readings either.
pub fn to_json(
    flows: &[Flow],
    names: &ServiceNames,
    ports: EphemeralPorts,
    sight: &Visibility,
) -> (r: String)
    ensures
        r@ == document(flow_views(flows@), names@, ports, sight@),
{
    let listening: Listeners = Listeners::from_flows(flows, ports);
    let ghost all = flow_views(flows@);
    let mut rows: Vec<String> = Vec::new();
    let mut i: usize = 0;
    while i < flows.len()
        invariant
            i <= flows@.len(),
            all == flow_views(flows@),
            listening.range() == ports,
            texts(rows@) =~= value_texts(flow_jsons(all, listening@, ports)).take(i as int),
        decreases flows@.len() - i,
    {
        let ghost before = rows@;
        rows.push(flow_text(&flows[i], &listening, ports));
        proof {
            lemma_texts_push(before, rows@.last());
            assert(flow_jsons(all, listening@, ports)[i as int] == flow_json(
                flows@[i as int]@,
                listening@,
                ports,
            ));
        }
        i += 1;
    }
    assert(texts(rows@) =~= value_texts(flow_jsons(all, listening@, ports)));
    let found: Vec<LocalService> = local_services(flows, names, ports);
    let ghost views = service_views(found@);
    let mut entries: Vec<String> = Vec::new();
    let mut k: usize = 0;
    while k < found.len()
        invariant
            k <= found@.len(),
            views == service_views(found@),
            texts(entries@) =~= value_texts(service_jsons(views)).take(k as int),
        decreases found@.len() - k,
    {
        let ghost before = entries@;
        entries.push(service_text(&found[k]));
        proof {
            lemma_texts_push(before, entries@.last());
            assert(service_jsons(views)[k as int] == service_json(found@[k as int]@));
        }
        k += 1;
    }
    assert(texts(entries@) =~= value_texts(service_jsons(views)));
    let mut out: Members = Members::new();
    let seen: String = visibility_text(sight);
    out.put("visibility", seen.as_str(), Ghost(visibility_json(sight@)));
    out.put_list("flows", &rows, Ghost(flow_jsons(all, listening@, ports)));
    out.put_list("services", &entries, Ghost(service_jsons(views)));
    assert(out@ =~= picture(all, names@, ports, sight@)->Object_0);
    out.close()
}

// ---------------------------------------------------------------------------
// Counting
// ---------------------------------------------------------------------------

pub open spec fn kinds(flows: Seq<FlowView>) -> Seq<Seq<char>> {
    Seq::new(flows.len(), |i: int| flows[i].owner.kind())
}

/// The different values of a row, in the order in which they first come.
pub open spec fn firsts(k: Seq<Seq<char>>) -> Seq<Seq<char>>
    decreases k.len(),
{
    if k.len() == 0 {
        seq![]
    } else {
        let before = firsts(k.drop_last());
        if before.contains(k.last()) {
            before
        } else {
            before.push(k.last())
        }
    }
}

/// How often a value comes in a row.
pub open spec fn count(k: Seq<Seq<char>>, x: Seq<char>) -> nat
    decreases k.len(),
{
    if k.len() == 0 {
        0
    } else {
        count(k.drop_last(), x) + if k.last() == x {
            1nat
        } else {
            0
        }
    }
}

/// Each value of a row, and how often it comes.
pub open spec fn tally(k: Seq<Seq<char>>) -> Seq<(Seq<char>, nat)> {
    Seq::new(firsts(k).len(), |i: int| (firsts(k)[i], count(k, firsts(k)[i])))
}

pub open spec fn tally_views(v: Seq<(&'static str, usize)>) -> Seq<(Seq<char>, nat)> {
    Seq::new(v.len(), |i: int| (v[i].0@, v[i].1 as nat))
}

proof fn lemma_firsts(k: Seq<Seq<char>>)
    ensures
        firsts(k).no_duplicates(),
        firsts(k).len() <= k.len(),
        forall|x: Seq<char>| #[trigger] firsts(k).contains(x) <==> count(k, x) > 0,
        forall|x: Seq<char>| #[trigger] count(k, x) <= k.len(),
    decreases k.len(),
{
    if k.len() > 0 {
        let t = k.drop_last();
        lemma_firsts(t);
        let f = firsts(t);
        let g = firsts(k);
        assert forall|x: Seq<char>| #[trigger] g.contains(x) <==> count(k, x) > 0 by {
            assert(f.contains(x) <==> count(t, x) > 0);
            if !f.contains(k.last()) {
                if f.contains(x) {
                    let i = choose|i: int| 0 <= i < f.len() && f[i] == x;
                    assert(g[i] == x);
                }
                if x == k.last() {
                    assert(g[f.len() as int] == x);
                }
                if g.contains(x) && x != k.last() {
                    let i = choose|i: int| 0 <= i < g.len() && g[i] == x;
                    assert(f[i] == x);
                }
            }
        }
        assert forall|x: Seq<char>| #[trigger] count(k, x) <= k.len() by {
            assert(count(t, x) <= t.len());
        }
    }
}

/// Count one more of a kind.
fn note_kind(out: &mut Vec<(&'static str, usize)>, kind: &'static str, k: Ghost<Seq<Seq<char>>>)
    requires
        tally_views(old(out)@) == tally(k@),
        k@.len() < usize::MAX,
    ensures
        tally_views(final(out)@) == tally(k@.push(kind@)),
{
    let ghost t = k@;
    let ghost u = t.push(kind@);
    let ghost was = out@;
    proof {
        lemma_firsts(t);
        assert(u.drop_last() =~= t);
        assert(was.len() == firsts(t).len()) by {
            assert(tally_views(was).len() == tally(t).len());
        }
    }
    let mut i: usize = 0;
    while i < out.len()
        invariant
            i <= out@.len(),
            out@ == was,
            t == k@,
            u == t.push(kind@),
            u.drop_last() == t,
            tally_views(was) == tally(t),
            was.len() == firsts(t).len(),
            firsts(t).no_duplicates(),
            t.len() < usize::MAX,
            forall|x: Seq<char>| #[trigger] count(t, x) <= t.len(),
            forall|j: int| 0 <= j < i ==> #[trigger] firsts(t)[j] != kind@,
        decreases out@.len() - i,
    {
        assert(tally_views(was)[i as int] == tally(t)[i as int]);
        if same(out[i].0, kind) {
            assert(firsts(t)[i as int] == kind@);
            assert(firsts(t).contains(kind@));
            assert(count(t, kind@) <= t.len());
            let n: usize = out[i].1 + 1;
            out.set(i, (kind, n));
            proof {
                assert(firsts(u) == firsts(t));
                assert forall|j: int| 0 <= j < firsts(u).len() implies tally_views(out@)[j]
                    == #[trigger] tally(u)[j] by {
                    assert(tally_views(was)[j] == tally(t)[j]);
                    if j != i {
                        assert(firsts(t)[j] != firsts(t)[i as int]);
                    }
                }
                assert(tally_views(out@) =~= tally(u));
            }
            return;
        }
        assert(firsts(t)[i as int] != kind@);
        i += 1;
    }
    out.push((kind, 1));
    proof {
        assert(!firsts(t).contains(kind@)) by {
            if firsts(t).contains(kind@) {
                let j = choose|j: int| 0 <= j < firsts(t).len() && firsts(t)[j] == kind@;
                assert(false);
            }
        }
        assert(count(t, kind@) == 0);
        assert(firsts(u) == firsts(t).push(kind@));
        assert forall|j: int| 0 <= j < firsts(u).len() implies tally_views(out@)[j]
            == #[trigger] tally(u)[j] by {
            if j < was.len() {
                assert(tally_views(was)[j] == tally(t)[j]);
                assert(firsts(t)[j] != kind@);
            }
        }
        assert(tally_views(out@) =~= tally(u));
    }
}

/// Count of flows by owner kind, for the UI's summary row.
pub fn by_kind(flows: &[Flow]) -> (r: Vec<(&'static str, usize)>)
    ensures
        tally_views(r@) == tally(kinds(flow_views(flows@))),
{
    let ghost all = kinds(flow_views(flows@));
    let mut out: Vec<(&'static str, usize)> = Vec::new();
    let mut i: usize = 0;
    assert(all.take(0) =~= Seq::<Seq<char>>::empty());
    assert(tally_views(out@) =~= tally(all.take(0)));
    let n: usize = flows.len();
    while i < n
        invariant
            i <= n,
            n == flows@.len(),
            all == kinds(flow_views(flows@)),
            tally_views(out@) == tally(all.take(i as int)),
        decreases n - i,
    {
        let kind: &'static str = flows[i].owner.kind();
        note_kind(&mut out, kind, Ghost(all.take(i as int)));
        assert(all[i as int] == kind@);
        assert(all.take(i as int).push(kind@) =~= all.take(i + 1));
        i += 1;
    }
    assert(all.take(i as int) =~= all);
    out
}

// ---------------------------------------------------------------------------
// Laws
// ---------------------------------------------------------------------------

/// What stays on this machine is never shown as coming in or going out,
/// whatever listens.
pub proof fn loopback_is_neither_in_nor_out(s: Socket, bound: Bound, ports: EphemeralPorts)
    requires
        host_only(s.remote_addr),
    ensures
        !(way(s, bound, ports) is Inbound),
        !(way(s, bound, ports) is Outbound),
{
}

/// A half-open connection that we are accepting is never shown as one we
/// dialled; with a peer off this machine it is inbound, whatever listens.
pub proof fn a_half_open_connection_is_inbound(s: Socket, bound: Bound, ports: EphemeralPorts)
    requires
        s.state is SynRecv,
    ensures
        !(way(s, bound, ports) is Outbound),
        !host_only(s.remote_addr) ==> way(s, bound, ports) is Inbound,
{
}

/// Whatever is shown as outbound has a peer, and the peer is off this machine.
pub proof fn what_is_outbound_leaves_the_host(s: Socket, bound: Bound, ports: EphemeralPorts)
    requires
        way(s, bound, ports) is Outbound,
    ensures
        s.peered(),
        !host_only(s.remote_addr),
{
}

/// A connection to a port this host listens on, at an address the listener
/// answers at, is inbound.
pub proof fn a_connection_to_a_listener_is_inbound(s: Socket, bound: Bound, ports: EphemeralPorts)
    requires
        takes(bound, s.local_addr, s.local_port),
        s.peered(),
        !host_only(s.remote_addr),
        !(s.state is Listen),
    ensures
        way(s, bound, ports) is Inbound,
{
}

/// A connection that a process holds is inbound only where it is half open or a
/// listener would have accepted it: the rule for what outlived its listener
/// does not reach it.
pub proof fn a_live_connection_is_inbound_only_by_a_listener(
    s: Socket,
    bound: Bound,
    ports: EphemeralPorts,
)
    requires
        s.inode != 0,
        way(s, bound, ports) is Inbound,
    ensures
        s.state is SynRecv || takes(bound, s.local_addr, s.local_port),
{
}

/// A connection that outlived its listener, on a port the kernel would never
/// hand out, is still inbound; on one that it does hand out, it is outbound.
pub proof fn an_orphan_is_told_by_its_port(s: Socket, bound: Bound, ports: EphemeralPorts)
    requires
        s.inode == 0,
        s.peered(),
        !host_only(s.remote_addr),
        !(s.state is Listen),
        !(s.state is SynRecv),
        !takes(bound, s.local_addr, s.local_port),
    ensures
        ports.service(s.local_port) ==> way(s, bound, ports) is Inbound,
        !ports.service(s.local_port) ==> way(s, bound, ports) is Outbound,
{
}

/// A v4 address and its v6 mapping are accepted alike.
pub proof fn mapped_addresses_are_accepted_alike(bound: Bound, a: IpAddr, b: IpAddr, port: u16)
    requires
        a.flat() == b.flat(),
    ensures
        takes(bound, a, port) == takes(bound, b, port),
{
    if takes(bound, a, port) {
        let i = choose|i: int|
            0 <= i < bound[port].len() && answers(#[trigger] bound[port][i], a);
        assert(answers(bound[port][i], b));
    }
    if takes(bound, b, port) {
        let i = choose|i: int|
            0 <= i < bound[port].len() && answers(#[trigger] bound[port][i], b);
        assert(answers(bound[port][i], a));
    }
}

/// Whether one of the rows is a listener on the port that answers at the
/// address.
pub open spec fn listener_among(flows: Seq<FlowView>, addr: IpAddr, port: u16) -> bool {
    exists|i: int|
        0 <= i < flows.len() && (#[trigger] flows[i]).socket.state is Listen
            && flows[i].socket.local_port == port && answers(flows[i].socket.local_addr, addr)
}

/// A connection is accepted exactly where one of the LISTEN rows is a listener
/// on its port that answers at its address. No other row counts.
pub proof fn only_listeners_accept(flows: Seq<FlowView>, addr: IpAddr, port: u16)
    ensures
        takes(listening(flows), addr, port) <==> listener_among(flows, addr, port),
    decreases flows.len(),
{
    if flows.len() > 0 {
        let t = flows.drop_last();
        let s = flows.last().socket;
        only_listeners_accept(t, addr, port);
        let b = listening(t);
        let c = listening(flows);
        if listener_among(t, addr, port) {
            let i = choose|i: int|
                0 <= i < t.len() && (#[trigger] t[i]).socket.state is Listen
                    && t[i].socket.local_port == port && answers(t[i].socket.local_addr, addr);
            assert(flows[i] == t[i]);
            assert(listener_among(flows, addr, port));
            let k = choose|k: int|
                0 <= k < b[port].len() && answers(#[trigger] b[port][k], addr);
            assert(c[port][k] == b[port][k]);
            assert(takes(c, addr, port));
        }
        if listener_among(flows, addr, port) && !listener_among(t, addr, port) {
            let i = choose|i: int|
                0 <= i < flows.len() && (#[trigger] flows[i]).socket.state is Listen
                    && flows[i].socket.local_port == port && answers(
                    flows[i].socket.local_addr,
                    addr,
                );
            if i < t.len() {
                assert(t[i] == flows[i]);
                assert(false);
            }
            assert(s.state is Listen && s.local_port == port && answers(s.local_addr, addr));
            assert(c[port].contains(s.local_addr)) by {
                if b.contains_key(port) && b[port].contains(s.local_addr) {
                } else {
                    assert(c[port].last() == s.local_addr);
                    assert(c[port][c[port].len() - 1] == s.local_addr);
                }
            }
            let k = choose|k: int| 0 <= k < c[port].len() && c[port][k] == s.local_addr;
            assert(answers(c[port][k], addr));
        }
        if takes(c, addr, port) && !takes(b, addr, port) {
            let k = choose|k: int|
                0 <= k < c[port].len() && answers(#[trigger] c[port][k], addr);
            assert(s.state is Listen && s.local_port == port);
            if b.contains_key(port) && k < b[port].len() {
                assert(b[port][k] == c[port][k]);
                assert(false);
            }
            assert(c[port][k] == s.local_addr);
            assert(flows[flows.len() - 1].socket == s);
            assert(listener_among(flows, addr, port));
        }
    }
}

/// The ports that listen are the ports of the LISTEN rows, each counted once.
pub proof fn the_listening_ports_are_those_of_the_listeners(flows: Seq<FlowView>, port: u16)
    ensures
        listening(flows).dom().contains(port) <==> exists|i: int|
            0 <= i < flows.len() && (#[trigger] flows[i]).socket.state is Listen
                && flows[i].socket.local_port == port,
        listening(flows).dom().finite(),
    decreases flows.len(),
{
    if flows.len() > 0 {
        let t = flows.drop_last();
        the_listening_ports_are_those_of_the_listeners(t, port);
        assert(flows[flows.len() - 1] == flows.last());
        if exists|i: int|
            0 <= i < t.len() && (#[trigger] t[i]).socket.state is Listen
                && t[i].socket.local_port == port {
            let i = choose|i: int|
                0 <= i < t.len() && (#[trigger] t[i]).socket.state is Listen
                    && t[i].socket.local_port == port;
            assert(flows[i] == t[i]);
        }
        if exists|i: int|
            0 <= i < flows.len() && (#[trigger] flows[i]).socket.state is Listen
                && flows[i].socket.local_port == port {
            let i = choose|i: int|
                0 <= i < flows.len() && (#[trigger] flows[i]).socket.state is Listen
                    && flows[i].socket.local_port == port;
            if i < t.len() {
                assert(t[i] == flows[i]);
            }
        }
    }
}

/// Every row on which the host accepts connections shows as a service, and no
/// two services are of one port and table.
pub proof fn every_door_shows_once(flows: Seq<FlowView>, ports: EphemeralPorts)
    ensures
        forall|i: int|
            0 <= i < flows.len() && accepting((#[trigger] flows[i]).socket, ports) ==> door_known(
                doors(flows, ports),
                flows[i].socket,
            ),
        forall|i: int, j: int|
            0 <= i < j < doors(flows, ports).len() ==> !((#[trigger] doors(
                flows,
                ports,
            )[i]).socket.local_port == (#[trigger] doors(flows, ports)[j]).socket.local_port
                && doors(flows, ports)[i].socket.proto == doors(flows, ports)[j].socket.proto),
        forall|i: int|
            0 <= i < doors(flows, ports).len() ==> accepting(
                (#[trigger] doors(flows, ports)[i]).socket,
                ports,
            ) && flows.contains(doors(flows, ports)[i]),
    decreases flows.len(),
{
    if flows.len() > 0 {
        let t = flows.drop_last();
        every_door_shows_once(t, ports);
        let d = doors(t, ports);
        let e = doors(flows, ports);
        assert(flows[flows.len() - 1] == flows.last());
        assert forall|i: int| 0 <= i < d.len() implies #[trigger] e[i] == d[i] by {}
        assert forall|i: int|
            0 <= i < flows.len() && accepting(
                (#[trigger] flows[i]).socket,
                ports,
            ) implies door_known(e, flows[i].socket) by {
            if i < t.len() {
                assert(t[i] == flows[i]);
            }
            if i < t.len() || door_known(d, flows[i].socket) {
                let k = choose|k: int|
                    0 <= k < d.len() && (#[trigger] d[k]).socket.local_port
                        == flows[i].socket.local_port && d[k].socket.proto
                        == flows[i].socket.proto;
                assert(e[k].socket.local_port == flows[i].socket.local_port);
            } else {
                assert(e[e.len() - 1] == flows[i]);
            }
        }
        assert forall|i: int, j: int| 0 <= i < j < e.len() implies !((
        #[trigger] e[i]).socket.local_port == (#[trigger] e[j]).socket.local_port
            && e[i].socket.proto == e[j].socket.proto) by {
            assert(e[i] == d[i]);
            if j < d.len() {
                assert(e[j] == d[j]);
            }
        }
        assert forall|i: int| 0 <= i < e.len() implies accepting(
            (#[trigger] e[i]).socket,
            ports,
        ) && flows.contains(e[i]) by {
            if i < d.len() {
                assert(e[i] == d[i]);
                let k = choose|k: int| 0 <= k < t.len() && t[k] == d[i];
                assert(flows[k] == e[i]);
            } else {
                assert(e[i] == flows[flows.len() - 1]);
            }
        }
    }
}

/// A service is said to forward exactly where the process that holds it is
/// seen, and something of the same name has a connection that we dialled off
/// this machine.
pub proof fn a_forwarder_is_told_by_its_own_egress(
    door: FlowView,
    flows: Seq<FlowView>,
    names: Seq<EntryView>,
    ports: EphemeralPorts,
)
    ensures
        service_at(door, flows, names, ports).forwards <==> door.holder is Some && exists|i: int|
            0 <= i < flows.len() && way((#[trigger] flows[i]).socket, listening(flows), ports)
                is Outbound && flows[i].actor() == door.actor(),
{
}

/// Every row of the tables is in the picture, attributed or not, in the order
/// in which it was read.
pub proof fn no_row_is_dropped(scan: Seq<ScannedView>, order: ByteOrder, tables: NetTables)
    ensures
        flows_of(scan, all_rows(order, tables)).len() == all_rows(order, tables).len(),
        forall|i: int|
            0 <= i < all_rows(order, tables).len() ==> (#[trigger] flows_of(
                scan,
                all_rows(order, tables),
            )[i]).socket == all_rows(order, tables)[i],
{
}

/// The document is JSON, whatever names the machine's processes gave themselves.
pub proof fn the_document_is_json(
    flows: Seq<FlowView>,
    names: Seq<EntryView>,
    ports: EphemeralPorts,
    sight: VisibilityView,
)
    ensures
        is_json(document(flows, names, ports, sight)),
{
    every_value_is_written_as_json(picture(flows, names, ports, sight));
}

/// The documents of a machine that can be read and of one that cannot are
/// never alike: what could be seen is told apart in the bytes, whatever the
/// rows are.
pub proof fn a_blind_reading_never_looks_like_a_quiet_one(
    flows: Seq<FlowView>,
    names: Seq<EntryView>,
    ports: EphemeralPorts,
    a: VisibilityView,
    more: Seq<FlowView>,
    other_names: Seq<EntryView>,
    other_ports: EphemeralPorts,
    b: VisibilityView,
)
    requires
        a.sight != b.sight,
    ensures
        document(flows, names, ports, a) != document(more, other_names, other_ports, b),
{
    lemma_document_starts(flows, names, ports, a);
    lemma_document_starts(more, other_names, other_ports, b);
}

proof fn lemma_members_start(m: Seq<(Seq<char>, Json)>)
    requires
        m.len() > 0,
    ensures
        ({
            let first = quoted(m[0].0) + ":"@ + m[0].1.text();
            members_text(m).len() >= first.len() && members_text(m).take(first.len() as int)
                == first
        }),
    decreases m.len(),
{
    let first = quoted(m[0].0) + ":"@ + m[0].1.text();
    if m.len() == 1 {
        assert(members_text(m).take(first.len() as int) =~= first);
    } else {
        let t = m.drop_last();
        lemma_members_start(t);
        assert(t[0] == m[0]);
        assert(members_text(m).take(first.len() as int) =~= members_text(t).take(
            first.len() as int,
        ));
    }
}

/// Where the value of an object's first member begins.
spec fn value_at(key: Seq<char>) -> int {
    (1 + quoted(key).len() + 1) as int
}

proof fn lemma_object_starts(m: Seq<(Seq<char>, Json)>, i: int)
    requires
        m.len() > 0,
        0 <= i < m[0].1.text().len(),
    ensures
        Json::Object(m).text().len() > value_at(m[0].0) + i,
        Json::Object(m).text()[value_at(m[0].0) + i] == m[0].1.text()[i],
{
    reveal_strlit("{");
    reveal_strlit(":");
    let first = quoted(m[0].0) + ":"@ + m[0].1.text();
    let k = quoted(m[0].0).len() + 1 + i;
    lemma_members_start(m);
    assert(first[k] == m[0].1.text()[i]);
    assert(members_text(m).take(first.len() as int)[k] == first[k]);
    assert(Json::Object(m).text()[1 + k] == members_text(m)[k]);
}

proof fn lemma_document_starts(
    flows: Seq<FlowView>,
    names: Seq<EntryView>,
    ports: EphemeralPorts,
    v: VisibilityView,
)
    ensures
        ({
            let n = value_at("visibility"@) + value_at("sight"@) + 1;
            document(flows, names, ports, v).len() > n && document(flows, names, ports, v)[n]
                == (match v.sight {
                crate::visibility::Sight::Full => 'f',
                crate::visibility::Sight::OwnProcessOnly => 'o',
                crate::visibility::Sight::TablesWithheld => 't',
                crate::visibility::Sight::NoProcNet => 'n',
            })
        }),
{
    reveal_strlit("full");
    reveal_strlit("own-process-only");
    reveal_strlit("tables-withheld");
    reveal_strlit("no-proc-net");
    reveal_strlit("\"");
    let name = v.sight.name();
    assert(name.len() > 0);
    lemma_escaped_front(name);
    assert(escape(name[0]) =~= seq![name[0]]);
    assert(quoted(name)[1] == escaped(name)[0]);
    let seen = visibility_json(v)->Object_0;
    assert(seen[0] == ("sight"@, Json::Text(name)));
    assert(seen[0].1.text() == quoted(name));
    lemma_object_starts(seen, 1);
    let all = picture(flows, names, ports, v)->Object_0;
    assert(all[0] == ("visibility"@, visibility_json(v)));
    lemma_object_starts(all, value_at("sight"@) + 1);
}

/// Every row is counted once: the counts by kind add up to the rows.
pub proof fn the_counts_add_up(k: Seq<Seq<char>>)
    ensures
        total(tally(k)) == k.len(),
{
    lemma_counts_add_up(k);
    lemma_total_of(firsts(k), k);
    assert(tally(k) =~= counted(firsts(k), k));
}

/// The sum of the counts.
pub open spec fn total(t: Seq<(Seq<char>, nat)>) -> nat
    decreases t.len(),
{
    if t.len() == 0 {
        0
    } else {
        total(t.drop_last()) + t.last().1
    }
}

spec fn counted(f: Seq<Seq<char>>, k: Seq<Seq<char>>) -> Seq<(Seq<char>, nat)> {
    Seq::new(f.len(), |i: int| (f[i], count(k, f[i])))
}

spec fn sum_of(f: Seq<Seq<char>>, k: Seq<Seq<char>>) -> nat
    decreases f.len(),
{
    if f.len() == 0 {
        0
    } else {
        sum_of(f.drop_last(), k) + count(k, f.last())
    }
}

proof fn lemma_total_of(f: Seq<Seq<char>>, k: Seq<Seq<char>>)
    ensures
        total(counted(f, k)) == sum_of(f, k),
    decreases f.len(),
{
    if f.len() > 0 {
        lemma_total_of(f.drop_last(), k);
        assert(counted(f, k).drop_last() =~= counted(f.drop_last(), k));
    }
}

proof fn lemma_sum_grows(f: Seq<Seq<char>>, k: Seq<Seq<char>>)
    requires
        k.len() > 0,
        f.no_duplicates(),
    ensures
        sum_of(f, k) == sum_of(f, k.drop_last()) + if f.contains(k.last()) {
            1nat
        } else {
            0
        },
    decreases f.len(),
{
    if f.len() > 0 {
        let g = f.drop_last();
        assert(g.no_duplicates());
        lemma_sum_grows(g, k);
        let x = k.last();
        assert(f =~= g.push(f.last()));
        if g.contains(x) {
            let i = choose|i: int| 0 <= i < g.len() && g[i] == x;
            assert(f[i] == x);
            assert(f[f.len() - 1] != f[i]);
        } else if f.contains(x) {
            let i = choose|i: int| 0 <= i < f.len() && f[i] == x;
            if i < g.len() {
                assert(g[i] == x);
            }
            assert(f.last() == x);
        } else {
            assert(f[f.len() - 1] != x);
        }
    }
}

proof fn lemma_counts_add_up(k: Seq<Seq<char>>)
    ensures
        sum_of(firsts(k), k) == k.len(),
    decreases k.len(),
{
    if k.len() > 0 {
        let t = k.drop_last();
        lemma_counts_add_up(t);
        lemma_firsts(t);
        lemma_firsts(k);
        lemma_sum_grows(firsts(k), k);
        assert(firsts(k).contains(k.last())) by {
            assert(count(k, k.last()) > 0);
        }
        if !firsts(t).contains(k.last()) {
            assert(firsts(k).drop_last() =~= firsts(t));
            assert(count(t, k.last()) == 0);
        }
    }
}

// ---------------------------------------------------------------------------
// What the rows mean
// ---------------------------------------------------------------------------

/// Whether an address is one of the machine's own inner addresses, by its
/// numbers: `127.*`, `::1`, or a `127.*` written as an IPv6 address.
pub open spec fn inner(a: IpAddr) -> bool {
    match a {
        IpAddr::V4(a, _, _, _) => a == 127,
        IpAddr::V6(a, b, c, d, e, f, g, h) => a == 0 && b == 0 && c == 0 && d == 0 && e == 0 && ((f
            == 0 && g == 0 && h == 1) || (f == 0xffff && 0x7f00 <= g <= 0x7fff)),
    }
}

/// Whether an address is all zeros.
pub open spec fn blank(a: IpAddr) -> bool {
    match a {
        IpAddr::V4(a, b, c, d) => a == 0 && b == 0 && c == 0 && d == 0,
        IpAddr::V6(a, b, c, d, e, f, g, h) => a == 0 && b == 0 && c == 0 && d == 0 && e == 0 && f
            == 0 && g == 0 && h == 0,
    }
}

/// Whether a row has somebody at the other end.
pub open spec fn has_other_end(s: Socket) -> bool {
    s.remote_port != 0 && !blank(s.remote_addr)
}

/// Whether a row is a connection from this machine to itself.
pub open spec fn stays_here(s: Socket) -> bool {
    !(s.state is Listen) && has_other_end(s) && inner(s.remote_addr)
}

proof fn lemma_inner(a: IpAddr)
    ensures
        host_only(a) <==> inner(a) || blank(a),
        a.unspecified() <==> blank(a),
{
    match a {
        IpAddr::V6(0, 0, 0, 0, 0, 0xffff, g, _) => {
            assert(((g / 256) as u8 == 127) <==> (0x7f00 <= g <= 0x7fff)) by {
                assert(g / 256 <= 255);
            }
        },
        _ => {},
    }
}

/// A row points one way, and which way it is told by nothing but its state, its
/// other end, and where this host listens: a listener listens; what has nobody at
/// the other end is idle, unless it is just being accepted; what stays on the
/// machine is loopback; and what is left came in or went out.
pub proof fn a_row_points_one_way(s: Socket, bound: Bound, ports: EphemeralPorts)
    ensures
        way(s, bound, ports) is Listening <==> s.state is Listen,
        way(s, bound, ports) is Idle <==> !(s.state is Listen) && !(s.state is SynRecv)
            && !has_other_end(s),
        way(s, bound, ports) is Loopback <==> !(s.state is Listen) && (s.state is SynRecv
            || has_other_end(s)) && (inner(s.remote_addr) || blank(s.remote_addr)),
        has_other_end(s) && !(s.state is Listen) ==> (way(s, bound, ports) is Loopback <==> inner(
            s.remote_addr,
        )),
        way(s, bound, ports) is Outbound ==> has_other_end(s) && !inner(s.remote_addr)
            && !(s.state is SynRecv) && !takes(bound, s.local_addr, s.local_port),
        s.inode != 0 && has_other_end(s) && !inner(s.remote_addr) && !(s.state is Listen)
            && !(s.state is SynRecv) && !takes(bound, s.local_addr, s.local_port) ==> way(
            s,
            bound,
            ports,
        ) is Outbound,
{
    lemma_inner(s.remote_addr);
}

/// A listener answers at its own address and at no other, unless it is bound to
/// none in particular; then it answers everywhere. An IPv4 address and the same
/// one written as an IPv6 address are one address.
pub proof fn a_listener_answers_at_its_address(a: IpAddr, b: IpAddr)
    ensures
        answers(a, a),
        blank(a) ==> answers(a, b),
        a is V4 && b is V4 && !blank(a) ==> (answers(a, b) <==> a == b),
        a is V6 && b is V6 && !blank(a) ==> (answers(a, b) <==> a == b),
        (match a {
            IpAddr::V6(0, 0, 0, 0, 0, 0xffff, g, h) => b is V4 ==> (answers(a, b) <==> b
                == IpAddr::V4(
                (g / 256) as u8,
                (g % 256) as u8,
                (h / 256) as u8,
                (h % 256) as u8,
            )),
            _ => true,
        }),
{
    lemma_inner(a);
    if let (IpAddr::V6(0, 0, 0, 0, 0, 0xffff, g, h), IpAddr::V6(0, 0, 0, 0, 0, 0xffff, x, y)) = (a, b) {
        lemma_halves(g, x);
        lemma_halves(h, y);
    }
}

proof fn lemma_halves(a: u16, b: u16)
    ensures
        (a / 256) as u8 == (b / 256) as u8 && (a % 256) as u8 == (b % 256) as u8 <==> a == b,
{
    assert(a / 256 <= 255 && b / 256 <= 255);
    assert(a == 256 * (a / 256) + a % 256);
    assert(b == 256 * (b / 256) + b % 256);
}

/// Whether a row is a place where the host accepts connections: a TCP listener,
/// or a UDP socket with nobody at the other end, on a port outside the range that
/// the kernel hands out of.
pub open spec fn open_door(s: Socket, ports: EphemeralPorts) -> bool {
    if s.proto is Tcp || s.proto is Tcp6 {
        s.state is Listen
    } else {
        !has_other_end(s) && s.local_port != 0 && (s.local_port < ports.low || s.local_port
            > ports.high)
    }
}

/// Where a host accepts connections is told by the row alone.
pub proof fn a_door_is_told_by_its_row(s: Socket, ports: EphemeralPorts)
    ensures
        accepting(s, ports) <==> open_door(s, ports),
{
    lemma_inner(s.remote_addr);
}

proof fn lemma_calls(s: Socket, bound: Bound, ports: EphemeralPorts, port: u16, proto: Proto)
    ensures
        calls(s, bound, ports, port, proto) <==> stays_here(s) && s.remote_port == port && s.proto
            == proto,
{
    lemma_inner(s.remote_addr);
}

proof fn lemma_callers_anywhere(
    flows: Seq<FlowView>,
    a: Bound,
    b: Bound,
    ports: EphemeralPorts,
    port: u16,
    proto: Proto,
)
    ensures
        callers(flows, a, ports, port, proto) == callers(flows, b, ports, port, proto),
    decreases flows.len(),
{
    if flows.len() > 0 {
        lemma_callers_anywhere(flows.drop_last(), a, b, ports, port, proto);
        lemma_calls(flows.last().socket, a, ports, port, proto);
        lemma_calls(flows.last().socket, b, ports, port, proto);
    }
}

/// A service's clients are counted one by one: one more connection from this
/// machine to that very port, in that very table, is one client more, and any
/// other row changes nothing, be it the service's own end of the connection.
pub proof fn a_client_is_a_connection_into_the_port(
    door: FlowView,
    flows: Seq<FlowView>,
    more: FlowView,
    names: Seq<EntryView>,
    ports: EphemeralPorts,
)
    ensures
        service_at(door, seq![], names, ports).clients == 0,
        service_at(door, flows.push(more), names, ports).clients == service_at(
            door,
            flows,
            names,
            ports,
        ).clients + if stays_here(more.socket) && more.socket.remote_port == door.socket.local_port
            && more.socket.proto == door.socket.proto {
            1nat
        } else {
            0
        },
{
    let all = flows.push(more);
    let port = door.socket.local_port;
    let proto = door.socket.proto;
    assert(all.drop_last() =~= flows);
    lemma_callers_anywhere(flows, listening(flows), listening(all), ports, port, proto);
    lemma_calls(more.socket, listening(all), ports, port, proto);
}

/// A row that goes to another port is nobody's client there.
pub proof fn a_row_to_another_port_is_no_client(
    door: FlowView,
    flows: Seq<FlowView>,
    more: FlowView,
    names: Seq<EntryView>,
    ports: EphemeralPorts,
)
    requires
        more.socket.remote_port != door.socket.local_port,
    ensures
        service_at(door, flows.push(more), names, ports).clients == service_at(
            door,
            flows,
            names,
            ports,
        ).clients,
{
    a_client_is_a_connection_into_the_port(door, flows, more, names, ports);
}

/// Whether a row is the first place of its port and table where the host accepts
/// connections.
pub open spec fn first_door(flows: Seq<FlowView>, ports: EphemeralPorts, k: int) -> bool {
    &&& 0 <= k < flows.len()
    &&& open_door(flows[k].socket, ports)
    &&& forall|j: int|
        0 <= j < k && open_door((#[trigger] flows[j]).socket, ports) ==> !(
        flows[j].socket.local_port == flows[k].socket.local_port && flows[j].socket.proto
            == flows[k].socket.proto)
}

spec fn is_first_door(flows: Seq<FlowView>, ports: EphemeralPorts, f: FlowView) -> bool {
    exists|k: int| #[trigger] first_door(flows, ports, k) && flows[k] == f
}

proof fn lemma_first_doors(flows: Seq<FlowView>, ports: EphemeralPorts)
    ensures
        forall|i: int|
            0 <= i < doors(flows, ports).len() ==> is_first_door(
                flows,
                ports,
                #[trigger] doors(flows, ports)[i],
            ),
        forall|k: int| #[trigger]
            first_door(flows, ports, k) ==> doors(flows, ports).contains(flows[k]),
    decreases flows.len(),
{
    let d = doors(flows, ports);
    if flows.len() > 0 {
        let t = flows.drop_last();
        let n = flows.len() - 1;
        let b = doors(t, ports);
        lemma_first_doors(t, ports);
        every_door_shows_once(t, ports);
        a_door_is_told_by_its_row(flows.last().socket, ports);
        assert forall|j: int| 0 <= j < t.len() implies #[trigger] flows[j] == t[j] by {}
        assert forall|k: int| 0 <= k < n implies #[trigger] first_door(t, ports, k) == first_door(
            flows,
            ports,
            k,
        ) by {
            if first_door(flows, ports, k) {
                assert forall|j: int| 0 <= j < k && open_door((#[trigger] t[j]).socket, ports) implies !(
                t[j].socket.local_port == t[k].socket.local_port && t[j].socket.proto
                    == t[k].socket.proto) by {
                    assert(flows[j] == t[j]);
                }
            }
        }
        assert(first_door(flows, ports, n) <==> accepting(flows.last().socket, ports)
            && !door_known(b, flows.last().socket)) by {
            let s = flows.last().socket;
            if door_known(b, s) {
                let i = choose|i: int|
                    0 <= i < b.len() && (#[trigger] b[i]).socket.local_port == s.local_port
                        && b[i].socket.proto == s.proto;
                let k = choose|k: int| #[trigger] first_door(t, ports, k) && t[k] == b[i];
                assert(flows[k] == t[k]);
            }
            if accepting(s, ports) && !first_door(flows, ports, n) {
                let j = choose|j: int|
                    0 <= j < n && open_door((#[trigger] flows[j]).socket, ports)
                        && flows[j].socket.local_port == s.local_port && flows[j].socket.proto
                        == s.proto;
                assert(t[j] == flows[j]);
                a_door_is_told_by_its_row(t[j].socket, ports);
                assert(accepting(t[j].socket, ports));
                assert(door_known(b, t[j].socket));
            }
        }
        assert forall|i: int| 0 <= i < d.len() implies is_first_door(
            flows,
            ports,
            #[trigger] d[i],
        ) by {
            if i < b.len() {
                assert(d[i] == b[i]);
                let k = choose|k: int| #[trigger] first_door(t, ports, k) && t[k] == b[i];
                assert(first_door(flows, ports, k) && flows[k] == d[i]);
            } else {
                assert(first_door(flows, ports, n));
                assert(flows[n] == d[i]);
            }
        }
        assert forall|k: int| #[trigger] first_door(flows, ports, k) implies d.contains(flows[k]) by {
            if k < n {
                assert(first_door(t, ports, k));
                let i = choose|i: int| 0 <= i < b.len() && b[i] == t[k];
                assert(d[i] == flows[k]);
            } else {
                assert(d[d.len() - 1] == flows[k]);
            }
        }
    }
}

/// Whether a service is told of as its row says: the port and the table, the
/// process that holds it, what kind of thing that is, and the name that the
/// system gives to the port.
pub open spec fn told_as_its_row_says(v: ServiceView, f: FlowView, names: Seq<EntryView>) -> bool {
    &&& v.port == f.socket.local_port
    &&& v.proto == f.socket.proto.name()
    &&& v.actor is Some <==> f.holder is Some
    &&& f.holder matches Some(h) ==> v.actor == Some(h.label())
    &&& v.kind == f.owner.kind()
    &&& v.service == lookup(
        names,
        f.socket.local_port,
        if f.socket.proto is Tcp || f.socket.proto is Tcp6 {
            crate::services::Proto::Tcp
        } else {
            crate::services::Proto::Udp
        },
    )
}

/// The services of a host are its doors: behind every service is the first row
/// of its port and table, and every such row is a service.
pub proof fn the_services_are_the_doors(
    flows: Seq<FlowView>,
    names: Seq<EntryView>,
    ports: EphemeralPorts,
    i: int,
    k: int,
)
    ensures
        0 <= i < services(flows, names, ports).len() ==> exists|j: int| #[trigger]
            first_door(flows, ports, j) && told_as_its_row_says(
                services(flows, names, ports)[i],
                flows[j],
                names,
            ),
        first_door(flows, ports, k) ==> exists|j: int|
            0 <= j < services(flows, names, ports).len() && told_as_its_row_says(
                #[trigger] services(flows, names, ports)[j],
                flows[k],
                names,
            ),
{
    let d = doors(flows, ports);
    let v = services(flows, names, ports);
    lemma_first_doors(flows, ports);
    if 0 <= i < v.len() {
        assert(v[i] == service_at(d[i], flows, names, ports));
        let j = choose|j: int| #[trigger] first_door(flows, ports, j) && flows[j] == d[i];
        assert(first_door(flows, ports, j) && told_as_its_row_says(v[i], flows[j], names));
    }
    if first_door(flows, ports, k) {
        let j = choose|j: int| 0 <= j < d.len() && d[j] == flows[k];
        assert(v[j] == service_at(d[j], flows, names, ports));
        assert(told_as_its_row_says(v[j], flows[k], names));
    }
}

/// A row is attributed to the process that holds its socket, by its inode, and
/// to what that process belongs to; where nobody holds it, it is nobody's.
pub proof fn a_row_is_its_holders(scan: Seq<ScannedView>, s: Socket, i: int)
    ensures
        flow_of(scan, s).socket == s,
        0 <= i < scan.len() && scan[i].holds(s.inode) ==> flow_of(scan, s).holder is Some
            && flow_of(scan, s).holder->0.pid <= scan[i].pid()->0,
        flow_of(scan, s).holder matches Some(h) ==> flow_of(scan, s).owner == h.owner
            && exists|k: int|
            0 <= k < scan.len() && (#[trigger] scan[k]).holds(s.inode) && scan[k].pid() == Some(
                h.pid,
            ),
        flow_of(scan, s).holder is None ==> flow_of(scan, s).owner is Unowned
            && flow_of(scan, s).actor() == "unattributed"@,
{
    crate::procs::the_lowest_pid_wins(scan, s.inode);
    if let Some(h) = winner(scan, s.inode) {
        let k = choose|k: int|
            0 <= k < scan.len() && (#[trigger] scan[k]).holds(s.inode) && scan[k].holder() == h;
        assert(scan[k].holds(s.inode) && scan[k].pid() == Some(h.pid));
    }
}

/// The value of a member of an object, by its name.
pub open spec fn member(j: Json, name: Seq<char>) -> Option<Json> {
    match j {
        Json::Object(m) => if exists|i: int| 0 <= i < m.len() && (#[trigger] m[i]).0 == name {
            Some(m[choose|i: int| 0 <= i < m.len() && (#[trigger] m[i]).0 == name].1)
        } else {
            None
        },
        _ => None,
    }
}

pub proof fn lemma_member(m: Seq<(Seq<char>, Json)>, i: int)
    requires
        0 <= i < m.len(),
        forall|k: int| 0 <= k < m.len() && k != i ==> (#[trigger] m[k]).0 != m[i].0,
    ensures
        member(Json::Object(m), m[i].0) == Some(m[i].1),
{
    let k = choose|k: int| 0 <= k < m.len() && (#[trigger] m[k]).0 == m[i].0;
    assert(m[i].0 == m[i].0);
    assert(k == i);
}

proof fn lemma_flow_names()
    ensures
        ({
            let n = seq![
                "proto"@,
                "state"@,
                "local"@,
                "lport"@,
                "remote"@,
                "rport"@,
                "inode"@,
                "uid"@,
                "actor"@,
                "kind"@,
                "pid"@,
                "exe"@,
                "leaves"@,
                "listening"@,
                "dir"@,
            ];
            forall|i: int, j: int| 0 <= i < 15 && 0 <= j < 15 && i != j ==> n[i] != n[j]
        }),
{
    reveal_strlit("proto");
    reveal_strlit("state");
    reveal_strlit("local");
    reveal_strlit("lport");
    reveal_strlit("remote");
    reveal_strlit("rport");
    reveal_strlit("inode");
    reveal_strlit("uid");
    reveal_strlit("actor");
    reveal_strlit("kind");
    reveal_strlit("pid");
    reveal_strlit("exe");
    reveal_strlit("leaves");
    reveal_strlit("listening");
    reveal_strlit("dir");
    assert("proto"@[0] == 'p' && "state"@[0] == 's' && "local"@[0] == 'l' && "local"@[1] == 'o');
    assert("lport"@[0] == 'l' && "lport"@[1] == 'p' && "remote"@[0] == 'r' && "remote"@[1] == 'e');
    assert("rport"@[0] == 'r' && "rport"@[1] == 'p' && "inode"@[0] == 'i' && "uid"@[0] == 'u');
    assert("actor"@[0] == 'a' && "kind"@[0] == 'k' && "pid"@[0] == 'p' && "pid"@[1] == 'i');
    assert("exe"@[0] == 'e' && "leaves"@[0] == 'l' && "leaves"@[1] == 'e');
    assert("proto"@[1] == 'r' && "listening"@[0] == 'l' && "listening"@[1] == 'i');
    assert("dir"@[0] == 'd');
}

/// Every row of the document says under each name what the row says: its table,
/// its state, both its ends, its inode and its owner's uid, who is at the near
/// end, and which way it points.
pub proof fn the_document_says_what_the_rows_say(
    flows: Seq<FlowView>,
    names: Seq<EntryView>,
    ports: EphemeralPorts,
    sight: VisibilityView,
    i: int,
)
    requires
        0 <= i < flows.len(),
    ensures
        ({
            let rows = member(picture(flows, names, ports, sight), "flows"@);
            let row = rows->0->List_0[i];
            let s = flows[i].socket;
            let f = flows[i];
            let d = way(s, listening(flows), ports);
            &&& rows is Some && rows->0 is List
            &&& rows->0->List_0.len() == flows.len()
            &&& member(row, "proto"@) == Some(Json::Text(s.proto.name()))
            &&& member(row, "state"@) == Some(Json::Text(s.state.spelling()))
            &&& member(row, "local"@) == Some(Json::Text(s.local_addr.spelling()))
            &&& member(row, "lport"@) == Some(Json::Number(s.local_port as nat))
            &&& member(row, "remote"@) == Some(Json::Text(s.remote_addr.spelling()))
            &&& member(row, "rport"@) == Some(Json::Number(s.remote_port as nat))
            &&& member(row, "inode"@) == Some(Json::Number(s.inode as nat))
            &&& member(row, "uid"@) == Some(Json::Number(s.uid as nat))
            &&& member(row, "kind"@) == Some(Json::Text(f.owner.kind()))
            &&& member(row, "dir"@) == Some(Json::Text(d.name()))
            &&& member(row, "leaves"@) == Some(Json::Truth(d is Outbound))
            &&& member(row, "listening"@) == Some(Json::Truth(open_door(s, ports)))
            &&& f.holder is None ==> member(row, "actor"@) == Some(Json::Text("unattributed"@))
                && member(row, "pid"@) == Some(Json::Number(0)) && member(row, "exe"@) == Some(
                Json::Text(""@),
            )
            &&& f.holder matches Some(h) ==> member(row, "actor"@) == Some(Json::Text(h.label()))
                && member(row, "pid"@) == Some(Json::Number(h.pid as nat)) && (h.exe matches Some(
                path,
            ) ==> member(row, "exe"@) == Some(Json::Text(path)))
        }),
{
    lemma_picture_names();
    let all = picture(flows, names, ports, sight)->Object_0;
    lemma_member(all, 1);
    let f = flows[i];
    let m = flow_json(f, listening(flows), ports)->Object_0;
    lemma_flow_names();
    let n = Seq::new(15, |k: int| m[k].0);
    assert(n =~= seq![
        "proto"@,
        "state"@,
        "local"@,
        "lport"@,
        "remote"@,
        "rport"@,
        "inode"@,
        "uid"@,
        "actor"@,
        "kind"@,
        "pid"@,
        "exe"@,
        "leaves"@,
        "listening"@,
        "dir"@,
    ]);
    assert forall|a: int, b: int| 0 <= a < 15 && 0 <= b < 15 && a != b implies (#[trigger] m[a]).0
        != (#[trigger] m[b]).0 by {
        assert(n[a] != n[b]);
    }
    lemma_member(m, 0);
    lemma_member(m, 1);
    lemma_member(m, 2);
    lemma_member(m, 3);
    lemma_member(m, 4);
    lemma_member(m, 5);
    lemma_member(m, 6);
    lemma_member(m, 7);
    lemma_member(m, 8);
    lemma_member(m, 9);
    lemma_member(m, 10);
    lemma_member(m, 11);
    lemma_member(m, 12);
    lemma_member(m, 13);
    lemma_member(m, 14);
    a_door_is_told_by_its_row(f.socket, ports);
}

proof fn lemma_picture_names()
    ensures
        "visibility"@ != "flows"@,
        "visibility"@ != "services"@,
        "flows"@ != "services"@,
{
    reveal_strlit("visibility");
    reveal_strlit("flows");
    reveal_strlit("services");
    assert("visibility"@[0] == 'v' && "flows"@[0] == 'f' && "services"@[0] == 's');
}

/// Every service of the document says under each name what the service is.
pub proof fn the_document_says_what_the_services_are(
    flows: Seq<FlowView>,
    names: Seq<EntryView>,
    ports: EphemeralPorts,
    sight: VisibilityView,
    i: int,
)
    requires
        0 <= i < services(flows, names, ports).len(),
    ensures
        ({
            let v = services(flows, names, ports)[i];
            let list = member(picture(flows, names, ports, sight), "services"@);
            let row = list->0->List_0[i];
            &&& list is Some && list->0 is List
            &&& list->0->List_0.len() == services(flows, names, ports).len()
            &&& member(row, "port"@) == Some(Json::Number(v.port as nat))
            &&& member(row, "proto"@) == Some(Json::Text(v.proto))
            &&& member(row, "kind"@) == Some(Json::Text(v.kind))
            &&& member(row, "clients"@) == Some(Json::Number(v.clients))
            &&& member(row, "forwards"@) == Some(Json::Truth(v.forwards))
            &&& v.actor matches Some(a) ==> member(row, "actor"@) == Some(Json::Text(a))
            &&& v.service matches Some(a) ==> member(row, "service"@) == Some(Json::Text(a))
            &&& v.actor is None ==> member(row, "actor"@) == Some(Json::Text(""@))
            &&& v.service is None ==> member(row, "service"@) == Some(Json::Text(""@))
        }),
{
    lemma_picture_names();
    let all = picture(flows, names, ports, sight)->Object_0;
    lemma_member(all, 2);
    let v = services(flows, names, ports)[i];
    let m = service_json(v)->Object_0;
    reveal_strlit("port");
    reveal_strlit("proto");
    reveal_strlit("actor");
    reveal_strlit("kind");
    reveal_strlit("service");
    reveal_strlit("clients");
    reveal_strlit("forwards");
    assert("port"@[1] == 'o' && "proto"@[1] == 'r' && "port"@[0] == 'p' && "proto"@[0] == 'p');
    assert("actor"@[0] == 'a' && "kind"@[0] == 'k' && "service"@[0] == 's');
    assert("clients"@[0] == 'c' && "forwards"@[0] == 'f');
    lemma_member(m, 0);
    lemma_member(m, 1);
    lemma_member(m, 2);
    lemma_member(m, 3);
    lemma_member(m, 4);
    lemma_member(m, 5);
    lemma_member(m, 6);
}

/// The document says first whether it can be believed.
pub proof fn the_document_says_whether_it_can_be_believed(
    flows: Seq<FlowView>,
    names: Seq<EntryView>,
    ports: EphemeralPorts,
    sight: VisibilityView,
)
    ensures
        ({
            let v = member(picture(flows, names, ports, sight), "visibility"@);
            &&& v is Some
            &&& member(v->0, "sight"@) == Some(Json::Text(sight.sight.name()))
            &&& member(v->0, "trustworthy"@) == Some(
                Json::Truth(
                    sight.sight == crate::visibility::Sight::Full || sight.sight
                        == crate::visibility::Sight::OwnProcessOnly,
                ),
            )
            &&& member(v->0, "headline"@) == Some(Json::Text(sight.sight.sentence()))
            &&& member(v->0, "evidence"@) == Some(Json::Text(sight.evidence))
            &&& member(v->0, "android"@) == Some(Json::Truth(sight.android))
            &&& sight.remedy matches Some(r) ==> member(v->0, "remedy"@) == Some(Json::Text(r))
            &&& sight.remedy is None ==> member(v->0, "remedy"@) == Some(Json::Null)
        }),
{
    lemma_picture_names();
    let all = picture(flows, names, ports, sight)->Object_0;
    lemma_member(all, 0);
    let m = visibility_json(sight)->Object_0;
    reveal_strlit("sight");
    reveal_strlit("trustworthy");
    reveal_strlit("headline");
    reveal_strlit("evidence");
    reveal_strlit("remedy");
    reveal_strlit("android");
    assert("sight"@[0] == 's' && "trustworthy"@[0] == 't' && "headline"@[0] == 'h');
    assert("evidence"@[0] == 'e' && "remedy"@[0] == 'r' && "android"@[0] == 'a');
    lemma_member(m, 0);
    lemma_member(m, 1);
    lemma_member(m, 2);
    lemma_member(m, 3);
    lemma_member(m, 4);
    lemma_member(m, 5);
}

/// One more row is counted under its own kind and under no other.
pub proof fn a_row_counts_for_its_kind(flows: Seq<FlowView>, more: FlowView, kind: Seq<char>)
    ensures
        counted_as(flows.push(more), kind) == counted_as(flows, kind) + if more.owner.kind() == kind {
            1nat
        } else {
            0
        },
        counted_as(seq![], kind) == 0,
{
    let k = kinds(flows);
    let l = kinds(flows.push(more));
    assert(l =~= k.push(more.owner.kind()));
    assert(l.drop_last() =~= k);
    lemma_counted_as(flows, kind);
    lemma_counted_as(flows.push(more), kind);
    lemma_counted_as(seq![], kind);
    assert(kinds(seq![]) =~= seq![]);
}

/// How many rows the summary counts under a kind: none where it does not list it.
pub open spec fn counted_as(flows: Seq<FlowView>, kind: Seq<char>) -> nat {
    let t = tally(kinds(flows));
    if exists|i: int| 0 <= i < t.len() && (#[trigger] t[i]).0 == kind {
        t[choose|i: int| 0 <= i < t.len() && (#[trigger] t[i]).0 == kind].1
    } else {
        0
    }
}

proof fn lemma_counted_as(flows: Seq<FlowView>, kind: Seq<char>)
    ensures
        counted_as(flows, kind) == count(kinds(flows), kind),
{
    let k = kinds(flows);
    let t = tally(k);
    lemma_firsts(k);
    if firsts(k).contains(kind) {
        let i = choose|i: int| 0 <= i < firsts(k).len() && firsts(k)[i] == kind;
        assert(t[i].0 == kind);
    }
    if exists|i: int| 0 <= i < t.len() && (#[trigger] t[i]).0 == kind {
        let i = choose|i: int| 0 <= i < t.len() && (#[trigger] t[i]).0 == kind;
        assert(firsts(k)[i] == kind);
        assert(firsts(k).contains(kind));
    }
}

/// A kind that was counted before keeps its place in the tally, and a new one goes
/// behind them all.
pub proof fn a_new_kind_goes_behind(k: Seq<Seq<char>>, x: Seq<char>, i: int)
    ensures
        0 <= i < tally(k).len() ==> tally(k.push(x))[i].0 == tally(k)[i].0,
        k.contains(x) ==> tally(k.push(x)).len() == tally(k).len(),
        !k.contains(x) ==> tally(k.push(x)).len() == tally(k).len() + 1 && tally(k.push(x)).last()
            == (x, 1nat),
        tally(Seq::<Seq<char>>::empty()).len() == 0,
{
    assert(k.push(x).drop_last() =~= k);
    lemma_firsts_are_those(k, x);
    lemma_never_counted(k, x);
}

proof fn lemma_firsts_are_those(k: Seq<Seq<char>>, x: Seq<char>)
    ensures
        firsts(k).contains(x) <==> k.contains(x),
    decreases k.len(),
{
    if k.len() > 0 {
        let t = k.drop_last();
        lemma_firsts_are_those(t, x);
        lemma_firsts_are_those(t, k.last());
        assert(t.push(k.last()) =~= k);
        crate::order::lemma_push_contains(t, k.last(), x);
        crate::order::lemma_push_contains(firsts(t), k.last(), x);
    }
}

proof fn lemma_never_counted(k: Seq<Seq<char>>, x: Seq<char>)
    ensures
        !k.contains(x) ==> count(k, x) == 0,
    decreases k.len(),
{
    if k.len() > 0 {
        let t = k.drop_last();
        lemma_never_counted(t, x);
        assert(t.push(k.last()) =~= k);
        crate::order::lemma_push_contains(t, k.last(), x);
    }
}

} // verus!
