//! The topology on the canvas: what is on it, where, and joined to what.
//!
//! Every node stands for something that exists (a program that is running, an
//! interface that is up, a tunnel that is configured) or for something a
//! person is proposing to add. The difference between those two is a property
//! of the node rather than a mode of the application.
//!
//! There is no drawing here. Where a node is put is a value of a type of the
//! caller's choice.

use vstd::prelude::*;
use vstd::relations::injective_on;
use vstd::set_lib::{lemma_int_range, lemma_map_size, lemma_subset_equality, set_int_range};

use crate::order::{
    at_most, lemma_lex_antisymmetric, lemma_lex_total, lemma_lex_transitive, lemma_push_contains,
    lex_le,
};
use crate::text::{copy, same};

verus! {

/// What a node stands for.
#[derive(Debug, Clone, Copy, PartialEq, Eq, PartialOrd, Ord, Structural)]
pub enum Kind {
    /// The machine itself. There is exactly one, and it cannot be deleted.
    Host,
    /// A program, service or container that opens connections.
    Program,
    /// A network interface: ethernet, wifi, a bridge.
    Interface,
    /// A tunnel interface: WireGuard, OpenVPN, anything point-to-point.
    Tunnel,
    /// Tor, running on this machine.
    Tor,
    /// A local service traffic passes through: a resolver, a proxy.
    LocalService,
    /// Somewhere off the machine.
    Destination,
    /// The internet at large, as one node.
    Internet,
}

impl Kind {
    pub open spec fn word(self) -> Seq<char> {
        match self {
            Kind::Host => "this machine"@,
            Kind::Program => "program"@,
            Kind::Interface => "interface"@,
            Kind::Tunnel => "tunnel"@,
            Kind::Tor => "Tor"@,
            Kind::LocalService => "local service"@,
            Kind::Destination => "destination"@,
            Kind::Internet => "internet"@,
        }
    }

    pub open spec fn column(self) -> u8 {
        match self {
            Kind::Host => 0,
            Kind::Program => 1,
            Kind::LocalService | Kind::Tor => 2,
            Kind::Interface | Kind::Tunnel => 3,
            Kind::Destination | Kind::Internet => 4,
        }
    }

    pub open spec fn addable(self) -> bool {
        self is Tunnel || self is Tor || self is Destination
    }

    /// The word a person would use.
    pub fn label(self) -> (r: &'static str)
        ensures
            r@ == self.word(),
    {
        match self {
            Kind::Host => "this machine",
            Kind::Program => "program",
            Kind::Interface => "interface",
            Kind::Tunnel => "tunnel",
            Kind::Tor => "Tor",
            Kind::LocalService => "local service",
            Kind::Destination => "destination",
            Kind::Internet => "internet",
        }
    }

    /// Which column this kind belongs in when the canvas is tidied.
    ///
    /// Traffic reads left to right, so the column says how far along the path
    /// a thing sits.
    pub fn rank(self) -> (r: u8)
        ensures
            r == self.column(),
    {
        match self {
            Kind::Host => 0,
            Kind::Program => 1,
            Kind::LocalService | Kind::Tor => 2,
            Kind::Interface | Kind::Tunnel => 3,
            Kind::Destination | Kind::Internet => 4,
        }
    }

    /// Whether a person may add one of these by hand.
    ///
    /// Nobody can invent a second machine or a second internet, nor a program
    /// that is not running: those come from the host. A tunnel that does not
    /// exist yet can be proposed.
    pub fn can_be_added(self) -> (r: bool)
        ensures
            r == self.addable(),
    {
        match self {
            Kind::Tunnel | Kind::Tor | Kind::Destination => true,
            Kind::Host | Kind::Program | Kind::Interface | Kind::LocalService | Kind::Internet => {
                false
            },
        }
    }
}

/// Whether a node describes the machine as it is, or as it is proposed.
#[derive(Debug, Clone, Copy, PartialEq, Eq, Structural)]
pub enum Origin {
    /// Read from the machine. Cannot be deleted; deleting it would be a claim
    /// about reality rather than a change to the plan.
    Observed,
    /// Put there by a person. This is the part that can be applied.
    Proposed,
}

/// A thing on the canvas, at a position of type `P`.
#[derive(Debug, PartialEq)]
pub struct Node<P> {
    pub id: String,
    pub kind: Kind,
    pub label: String,
    /// A second line: a pid, an address, a port.
    pub detail: String,
    pub origin: Origin,
    /// Canvas coordinates, not screen coordinates. Panning and zooming must
    /// not change the topology.
    pub pos: P,
    /// True when this program has a connection open right now.
    pub live: bool,
}

/// What a [`Node`] says.
pub struct NodeView<P> {
    pub id: Seq<char>,
    pub kind: Kind,
    pub label: Seq<char>,
    pub detail: Seq<char>,
    pub origin: Origin,
    pub pos: P,
    pub live: bool,
}

impl<P> View for Node<P> {
    type V = NodeView<P>;

    open spec fn view(&self) -> NodeView<P> {
        NodeView {
            id: self.id@,
            kind: self.kind,
            label: self.label@,
            detail: self.detail@,
            origin: self.origin,
            pos: self.pos,
            live: self.live,
        }
    }
}

impl<P: Copy> Clone for Node<P> {
    fn clone(&self) -> (r: Self)
        ensures
            r@ == self@,
    {
        Node {
            id: copy(self.id.as_str()),
            kind: self.kind,
            label: copy(self.label.as_str()),
            detail: copy(self.detail.as_str()),
            origin: self.origin,
            pos: self.pos,
            live: self.live,
        }
    }
}

/// A join between two nodes.
#[derive(Debug, PartialEq)]
pub struct Link {
    pub from: String,
    pub to: String,
    pub origin: Origin,
    /// Connections currently riding this link, for width and for the label.
    /// Zero for a link that is only proposed.
    pub weight: usize,
}

/// What a [`Link`] says.
pub struct LinkView {
    pub from: Seq<char>,
    pub to: Seq<char>,
    pub origin: Origin,
    pub weight: nat,
}

impl View for Link {
    type V = LinkView;

    open spec fn view(&self) -> LinkView {
        LinkView {
            from: self.from@,
            to: self.to@,
            origin: self.origin,
            weight: self.weight as nat,
        }
    }
}

impl LinkView {
    /// Whether a link joins two nodes, in either direction.
    pub open spec fn joins(self, a: Seq<char>, b: Seq<char>) -> bool {
        (self.from == a && self.to == b) || (self.from == b && self.to == a)
    }

    /// Whether one end of a link is the node.
    pub open spec fn touches(self, id: Seq<char>) -> bool {
        self.from == id || self.to == id
    }
}

impl Clone for Link {
    fn clone(&self) -> (r: Self)
        ensures
            r@ == self@,
    {
        Link {
            from: copy(self.from.as_str()),
            to: copy(self.to.as_str()),
            origin: self.origin,
            weight: self.weight,
        }
    }
}

/// The whole bench.
#[derive(Debug)]
pub struct Scene<P> {
    pub nodes: Vec<Node<P>>,
    pub links: Vec<Link>,
}

/// What a [`Scene`] says.
pub struct SceneView<P> {
    pub nodes: Seq<NodeView<P>>,
    pub links: Seq<LinkView>,
}

pub open spec fn node_views<P>(v: Seq<Node<P>>) -> Seq<NodeView<P>> {
    Seq::new(v.len(), |i: int| v[i]@)
}

pub open spec fn link_views(v: Seq<Link>) -> Seq<LinkView> {
    Seq::new(v.len(), |i: int| v[i]@)
}

impl<P> View for Scene<P> {
    type V = SceneView<P>;

    open spec fn view(&self) -> SceneView<P> {
        SceneView { nodes: node_views(self.nodes@), links: link_views(self.links@) }
    }
}

impl<P: Copy> Clone for Scene<P> {
    fn clone(&self) -> (r: Self)
        ensures
            r@ == self@,
    {
        let mut nodes: Vec<Node<P>> = Vec::new();
        let mut i: usize = 0;
        while i < self.nodes.len()
            invariant
                i <= self.nodes@.len(),
                node_views(nodes@) =~= node_views(self.nodes@).take(i as int),
            decreases self.nodes@.len() - i,
        {
            let ghost before = nodes@;
            nodes.push(self.nodes[i].clone());
            assert(node_views(nodes@) =~= node_views(before).push(self.nodes@[i as int]@));
            i += 1;
        }
        let mut links: Vec<Link> = Vec::new();
        let mut k: usize = 0;
        while k < self.links.len()
            invariant
                k <= self.links@.len(),
                link_views(links@) =~= link_views(self.links@).take(k as int),
            decreases self.links@.len() - k,
        {
            let ghost before = links@;
            links.push(self.links[k].clone());
            assert(link_views(links@) =~= link_views(before).push(self.links@[k as int]@));
            k += 1;
        }
        assert(node_views(nodes@) =~= node_views(self.nodes@));
        assert(link_views(links@) =~= link_views(self.links@));
        Scene { nodes, links }
    }
}

// ---------------------------------------------------------------------------
// What the operations mean
// ---------------------------------------------------------------------------

/// Where the first node of that id stands.
pub open spec fn index_of<P>(nodes: Seq<NodeView<P>>, id: Seq<char>) -> Option<int>
    decreases nodes.len(),
{
    if nodes.len() == 0 {
        None
    } else {
        match index_of(nodes.drop_last(), id) {
            Some(i) => Some(i),
            None => if nodes.last().id == id {
                Some(nodes.len() - 1)
            } else {
                None
            },
        }
    }
}

/// Whether two nodes are joined by one of the links.
pub open spec fn any_joins(links: Seq<LinkView>, a: Seq<char>, b: Seq<char>) -> bool {
    exists|i: int| 0 <= i < links.len() && (#[trigger] links[i]).joins(a, b)
}

/// The nodes without those of one id.
pub open spec fn nodes_without<P>(nodes: Seq<NodeView<P>>, id: Seq<char>) -> Seq<NodeView<P>>
    decreases nodes.len(),
{
    if nodes.len() == 0 {
        seq![]
    } else {
        let before = nodes_without(nodes.drop_last(), id);
        if nodes.last().id == id {
            before
        } else {
            before.push(nodes.last())
        }
    }
}

/// The links without those that touch a node.
pub open spec fn links_without(links: Seq<LinkView>, id: Seq<char>) -> Seq<LinkView>
    decreases links.len(),
{
    if links.len() == 0 {
        seq![]
    } else {
        let before = links_without(links.drop_last(), id);
        if links.last().touches(id) {
            before
        } else {
            before.push(links.last())
        }
    }
}

/// The links without the proposed ones between two nodes.
pub open spec fn links_undrawn(links: Seq<LinkView>, a: Seq<char>, b: Seq<char>) -> Seq<LinkView>
    decreases links.len(),
{
    if links.len() == 0 {
        seq![]
    } else {
        let before = links_undrawn(links.drop_last(), a, b);
        if links.last().joins(a, b) && links.last().origin is Proposed {
            before
        } else {
            before.push(links.last())
        }
    }
}

/// The nodes that a person proposed.
pub open spec fn proposed_nodes<P>(nodes: Seq<NodeView<P>>) -> Seq<NodeView<P>>
    decreases nodes.len(),
{
    if nodes.len() == 0 {
        seq![]
    } else if nodes.last().origin is Proposed {
        proposed_nodes(nodes.drop_last()).push(nodes.last())
    } else {
        proposed_nodes(nodes.drop_last())
    }
}

/// The links that a person proposed.
pub open spec fn proposed_links(links: Seq<LinkView>) -> Seq<LinkView>
    decreases links.len(),
{
    if links.len() == 0 {
        seq![]
    } else if links.last().origin is Proposed {
        proposed_links(links.drop_last()).push(links.last())
    } else {
        proposed_links(links.drop_last())
    }
}

/// Whether, in a tidied column, node `j` comes before node `i`: by label, and
/// where the labels are alike, by id. Only nodes that share even their id stay
/// in the order they have.
pub open spec fn precedes<P>(nodes: Seq<NodeView<P>>, j: int, i: int) -> bool {
    &&& nodes[j].kind.column() == nodes[i].kind.column()
    &&& lex_le(nodes[j].label, nodes[i].label)
    &&& nodes[j].label == nodes[i].label ==> lex_le(nodes[j].id, nodes[i].id)
    &&& nodes[j].label == nodes[i].label && nodes[j].id == nodes[i].id ==> j < i
}

/// How many of the first `n` nodes come before node `i` in its column.
pub open spec fn ahead<P>(nodes: Seq<NodeView<P>>, i: int, n: nat) -> nat
    decreases n,
{
    if n == 0 {
        0
    } else {
        ahead(nodes, i, (n - 1) as nat) + if precedes(nodes, n - 1, i) {
            1nat
        } else {
            0
        }
    }
}

/// The cell a node is tidied into: its column, and its row there.
pub open spec fn cell<P>(nodes: Seq<NodeView<P>>, i: int) -> (u8, nat) {
    (nodes[i].kind.column(), ahead(nodes, i, nodes.len()))
}

impl<X, Y> SceneView<(X, Y)> {
    /// The scene with every node in the cell it is tidied into. Nothing else
    /// about it changes.
    pub open spec fn tidied(self, columns: Seq<X>, rows: Seq<Y>) -> SceneView<(X, Y)> {
        SceneView {
            nodes: Seq::new(
                self.nodes.len(),
                |i: int|
                    {
                        let (column, row) = cell(self.nodes, i);
                        NodeView { pos: (columns[column as int], rows[row as int]), ..self.nodes[i] }
                    },
            ),
            links: self.links,
        }
    }
}

impl<P> SceneView<P> {
    pub open spec fn has(self, id: Seq<char>) -> bool {
        index_of(self.nodes, id) is Some
    }

    /// The scene with a node added, or with the facts of the one of that id
    /// refreshed. A node that is already on the canvas stays where it is.
    pub open spec fn upserted(self, node: NodeView<P>) -> SceneView<P> {
        match index_of(self.nodes, node.id) {
            Some(i) => SceneView {
                nodes: self.nodes.update(i, NodeView { pos: self.nodes[i].pos, ..node }),
                links: self.links,
            },
            None => SceneView { nodes: self.nodes.push(node), links: self.links },
        }
    }

    /// Whether two nodes can be joined.
    pub open spec fn joinable(self, from: Seq<char>, to: Seq<char>) -> bool {
        from != to && self.has(from) && self.has(to) && !any_joins(self.links, from, to)
    }

    /// The scene with two nodes joined, where they can be.
    pub open spec fn connected(self, from: Seq<char>, to: Seq<char>, origin: Origin) -> SceneView<
        P,
    > {
        if self.joinable(from, to) {
            SceneView {
                nodes: self.nodes,
                links: self.links.push(LinkView { from, to, origin, weight: 0 }),
            }
        } else {
            self
        }
    }

    /// Whether a node can be taken off the canvas: a person put it there.
    pub open spec fn removable(self, id: Seq<char>) -> bool {
        match index_of(self.nodes, id) {
            Some(i) => self.nodes[i].origin is Proposed,
            None => false,
        }
    }

    /// The scene without a node and everything joined to it, where it can be
    /// taken off.
    pub open spec fn removed(self, id: Seq<char>) -> SceneView<P> {
        if self.removable(id) {
            SceneView {
                nodes: nodes_without(self.nodes, id),
                links: links_without(self.links, id),
            }
        } else {
            self
        }
    }

    /// The scene without the links a person drew between two nodes.
    pub open spec fn disconnected(self, from: Seq<char>, to: Seq<char>) -> SceneView<P> {
        SceneView { nodes: self.nodes, links: links_undrawn(self.links, from, to) }
    }

    /// What the operations keep: no two nodes have one id, every link joins
    /// two different nodes that are on the canvas, and no two links join the
    /// same nodes.
    pub open spec fn wf(self) -> bool {
        &&& forall|i: int, j: int|
            0 <= i < j < self.nodes.len() ==> (#[trigger] self.nodes[i]).id != (
            #[trigger] self.nodes[j]).id
        &&& forall|i: int|
            0 <= i < self.links.len() ==> (#[trigger] self.links[i]).from != self.links[i].to
                && self.has(self.links[i].from) && self.has(self.links[i].to)
        &&& forall|i: int, j: int|
            0 <= i < j < self.links.len() ==> !(#[trigger] self.links[i]).joins(
                (#[trigger] self.links[j]).from,
                self.links[j].to,
            )
    }
}

// ---------------------------------------------------------------------------
// The operations
// ---------------------------------------------------------------------------

pub proof fn lemma_index_of<P>(nodes: Seq<NodeView<P>>, id: Seq<char>)
    ensures
        match index_of(nodes, id) {
            Some(i) => 0 <= i < nodes.len() && nodes[i].id == id && forall|k: int|
                0 <= k < i ==> (#[trigger] nodes[k]).id != id,
            None => forall|k: int| 0 <= k < nodes.len() ==> (#[trigger] nodes[k]).id != id,
        },
    decreases nodes.len(),
{
    if nodes.len() > 0 {
        let t = nodes.drop_last();
        lemma_index_of(t, id);
        assert forall|k: int| 0 <= k < t.len() implies #[trigger] nodes[k] == t[k] by {}
    }
}

proof fn lemma_index_is<P>(nodes: Seq<NodeView<P>>, id: Seq<char>, i: int)
    requires
        0 <= i < nodes.len(),
        nodes[i].id == id,
        forall|k: int| 0 <= k < i ==> (#[trigger] nodes[k]).id != id,
    ensures
        index_of(nodes, id) == Some(i),
{
    lemma_index_of(nodes, id);
}

impl<P> Default for Scene<P> {
    /// An empty bench.
    fn default() -> (r: Self)
        ensures
            r@.nodes.len() == 0,
            r@.links.len() == 0,
    {
        Scene { nodes: Vec::new(), links: Vec::new() }
    }
}

impl<P: Copy> Scene<P> {
    fn position(&self, id: &str) -> (r: Option<usize>)
        ensures
            match r {
                Some(i) => i < self.nodes@.len() && index_of(self@.nodes, id@) == Some(i as int),
                None => index_of(self@.nodes, id@) is None,
            },
    {
        let mut i: usize = 0;
        while i < self.nodes.len()
            invariant
                i <= self.nodes@.len(),
                forall|k: int| 0 <= k < i ==> (#[trigger] self@.nodes[k]).id != id@,
            decreases self.nodes@.len() - i,
        {
            assert(self@.nodes[i as int] == self.nodes@[i as int]@);
            if same(self.nodes[i].id.as_str(), id) {
                proof {
                    lemma_index_is(self@.nodes, id@, i as int);
                }
                return Some(i);
            }
            i += 1;
        }
        proof {
            lemma_index_of(self@.nodes, id@);
        }
        None
    }

    /// The node of that id, if there is one.
    pub fn node(&self, id: &str) -> (r: Option<&Node<P>>)
        ensures
            match r {
                Some(n) => self@.has(id@) && n@ == self@.nodes[index_of(self@.nodes, id@)->0],
                None => !self@.has(id@),
            },
    {
        match self.position(id) {
            Some(i) => {
                assert(self@.nodes[i as int] == self.nodes@[i as int]@);
                Some(&self.nodes[i])
            },
            None => None,
        }
    }

    /// The node of that id, to be changed.
    pub fn node_mut(&mut self, id: &str) -> (r: Option<&mut Node<P>>)
        ensures
            match r {
                Some(n) => {
                    let i = index_of(old(self)@.nodes, id@);
                    &&& i is Some
                    &&& (*n)@ == old(self)@.nodes[i->0]
                    &&& final(self)@.nodes == old(self)@.nodes.update(i->0, (*final(n))@)
                    &&& final(self)@.links == old(self)@.links
                },
                None => !old(self)@.has(id@) && final(self)@ == old(self)@,
            },
    {
        match self.position(id) {
            Some(i) => {
                let ghost before = self.nodes@;
                let n: &mut Node<P> = &mut self.nodes[i];
                assert(node_views(before.update(i as int, *final(n))) =~= node_views(before).update(
                    i as int,
                    (*final(n))@,
                ));
                Some(n)
            },
            None => None,
        }
    }

    /// Add a node, or refresh an existing one with the same id.
    ///
    /// Re-reading the machine must not scatter the layout a person has
    /// arranged, so a node that is already on the canvas keeps its position
    /// and only its facts are refreshed.
    pub fn upsert(&mut self, node: Node<P>)
        ensures
            final(self)@ == old(self)@.upserted(node@),
    {
        let ghost before = self.nodes@;
        match self.position(node.id.as_str()) {
            Some(i) => {
                let pos: P = self.nodes[i].pos;
                let fresh: Node<P> = Node { pos, ..node };
                self.nodes.set(i, fresh);
                assert(node_views(self.nodes@) =~= node_views(before).update(i as int, fresh@));
            },
            None => {
                self.nodes.push(node);
                assert(node_views(self.nodes@) =~= node_views(before).push(node@));
            },
        }
    }

    /// Join two nodes, if they are not joined already.
    ///
    /// Returns whether anything changed, so a caller can tell a new link from
    /// a repeated gesture.
    pub fn connect(&mut self, from: &str, to: &str, origin: Origin) -> (r: bool)
        ensures
            r == old(self)@.joinable(from@, to@),
            final(self)@ == old(self)@.connected(from@, to@, origin),
    {
        if same(from, to) || self.node(from).is_none() || self.node(to).is_none() {
            return false;
        }
        if self.linked(from, to) {
            return false;
        }
        let ghost before = self.links@;
        let link: Link = Link { from: copy(from), to: copy(to), origin, weight: 0 };
        self.links.push(link);
        assert(link_views(self.links@) =~= link_views(before).push(link@));
        true
    }

    /// Whether two nodes are joined, in either direction.
    pub fn linked(&self, a: &str, b: &str) -> (r: bool)
        ensures
            r == any_joins(self@.links, a@, b@),
    {
        let mut i: usize = 0;
        while i < self.links.len()
            invariant
                i <= self.links@.len(),
                forall|k: int| 0 <= k < i ==> !(#[trigger] self@.links[k]).joins(a@, b@),
            decreases self.links@.len() - i,
        {
            assert(self@.links[i as int] == self.links@[i as int]@);
            if joins_two(&self.links[i], a, b) {
                return true;
            }
            i += 1;
        }
        false
    }

    /// Remove a node a person put there, and everything joined to it.
    ///
    /// Observed nodes are refused: the canvas describes a real machine, and
    /// removing a running program from the picture would not stop it running.
    /// Returns whether anything was removed.
    pub fn remove(&mut self, id: &str) -> (r: bool)
        ensures
            r == old(self)@.removable(id@),
            final(self)@ == old(self)@.removed(id@),
    {
        match self.node(id) {
            Some(n) => {
                if n.origin == Origin::Observed {
                    return false;
                }
            },
            None => {
                return false;
            },
        }
        drop_nodes(&mut self.nodes, id);
        drop_links(&mut self.links, id);
        true
    }

    /// Remove a link a person drew. Returns whether there was one.
    pub fn disconnect(&mut self, from: &str, to: &str) -> (r: bool)
        ensures
            final(self)@ == old(self)@.disconnected(from@, to@),
            r == (exists|i: int|
                0 <= i < old(self)@.links.len() && (#[trigger] old(self)@.links[i]).joins(from@, to@)
                    && old(self)@.links[i].origin is Proposed),
    {
        let before: usize = self.links.len();
        proof {
            lemma_undrawn_len(self@.links, from@, to@);
        }
        undraw_links(&mut self.links, from, to);
        assert(link_views(self.links@).len() == self.links@.len());
        self.links.len() != before
    }

    /// The column and the row each node is tidied into.
    ///
    /// A column is in the order of the labels, so the order does not depend on
    /// the order the machine happened to report things in.
    pub fn cells(&self) -> (r: Vec<(u8, usize)>)
        ensures
            r@.len() == self@.nodes.len(),
            forall|i: int|
                0 <= i < r@.len() ==> ((#[trigger] r@[i]).0, r@[i].1 as nat) == cell(
                    self@.nodes,
                    i,
                ),
    {
        let mut out: Vec<(u8, usize)> = Vec::new();
        let mut i: usize = 0;
        while i < self.nodes.len()
            invariant
                i <= self.nodes@.len(),
                out@.len() == i,
                forall|k: int|
                    0 <= k < i ==> ((#[trigger] out@[k]).0, out@[k].1 as nat) == cell(
                        self@.nodes,
                        k,
                    ),
            decreases self.nodes@.len() - i,
        {
            let row: usize = self.row_of(i);
            out.push((self.nodes[i].kind.rank(), row));
            i += 1;
        }
        out
    }

    fn row_of(&self, i: usize) -> (r: usize)
        requires
            i < self.nodes@.len(),
        ensures
            r == ahead(self@.nodes, i as int, self@.nodes.len()),
    {
        let mut n: usize = 0;
        let mut j: usize = 0;
        let ghost views = self@.nodes;
        while j < self.nodes.len()
            invariant
                j <= self.nodes@.len(),
                i < self.nodes@.len(),
                views == node_views(self.nodes@),
                n <= j,
                n == ahead(views, i as int, j as nat),
            decreases self.nodes@.len() - j,
        {
            assert(views[i as int] == self.nodes@[i as int]@);
            assert(views[j as int] == self.nodes@[j as int]@);
            let alike: bool = same(self.nodes[j].label.as_str(), self.nodes[i].label.as_str());
            let one: bool = same(self.nodes[j].id.as_str(), self.nodes[i].id.as_str());
            if self.nodes[j].kind.rank() == self.nodes[i].kind.rank() && at_most(
                self.nodes[j].label.as_str(),
                self.nodes[i].label.as_str(),
            ) && (!alike || (at_most(self.nodes[j].id.as_str(), self.nodes[i].id.as_str()) && (!one
                || j < i))) {
                n += 1;
            }
            j += 1;
        }
        n
    }

    /// Everything a person has proposed, which is what an apply would have to
    /// carry out.
    pub fn proposed(&self) -> (r: (Vec<&Node<P>>, Vec<&Link>))
        ensures
            node_ref_views(r.0@) == proposed_nodes(self@.nodes),
            link_ref_views(r.1@) == proposed_links(self@.links),
    {
        let mut nodes: Vec<&Node<P>> = Vec::new();
        let ghost all = self@.nodes;
        let mut i: usize = 0;
        assert(all.take(0) =~= Seq::<NodeView<P>>::empty());
        assert(node_ref_views(nodes@) =~= proposed_nodes(all.take(0)));
        while i < self.nodes.len()
            invariant
                i <= self.nodes@.len(),
                all == node_views(self.nodes@),
                node_ref_views(nodes@) == proposed_nodes(all.take(i as int)),
            decreases self.nodes@.len() - i,
        {
            assert(all.take(i + 1).drop_last() =~= all.take(i as int));
            assert(all.take(i + 1).last() == self.nodes@[i as int]@);
            if self.nodes[i].origin == Origin::Proposed {
                let ghost before = nodes@;
                nodes.push(&self.nodes[i]);
                assert(node_ref_views(nodes@) =~= node_ref_views(before).push(
                    self.nodes@[i as int]@,
                ));
            }
            i += 1;
        }
        assert(all.take(i as int) =~= all);
        let mut links: Vec<&Link> = Vec::new();
        let ghost every = self@.links;
        let mut k: usize = 0;
        assert(every.take(0) =~= Seq::<LinkView>::empty());
        assert(link_ref_views(links@) =~= proposed_links(every.take(0)));
        while k < self.links.len()
            invariant
                k <= self.links@.len(),
                every == link_views(self.links@),
                link_ref_views(links@) == proposed_links(every.take(k as int)),
            decreases self.links@.len() - k,
        {
            assert(every.take(k + 1).drop_last() =~= every.take(k as int));
            assert(every.take(k + 1).last() == self.links@[k as int]@);
            if self.links[k].origin == Origin::Proposed {
                let ghost before = links@;
                links.push(&self.links[k]);
                assert(link_ref_views(links@) =~= link_ref_views(before).push(
                    self.links@[k as int]@,
                ));
            }
            k += 1;
        }
        assert(every.take(k as int) =~= every);
        (nodes, links)
    }
}

impl<X: Copy, Y: Copy> Scene<(X, Y)> {
    /// Lay the nodes out left to right by how far along a path they sit.
    /// `columns` says how far to the right each column lies, and `rows` how far
    /// down each row does.
    ///
    /// Deliberately deterministic: the same topology tidies to the same
    /// picture every time, so "arrange" is something a person can rely on
    /// rather than a shuffle.
    pub fn tidy(&mut self, columns: &[X; 5], rows: &[Y])
        requires
            rows@.len() >= old(self)@.nodes.len(),
        ensures
            final(self)@ == old(self)@.tidied(columns@, rows@),
    {
        let cells: Vec<(u8, usize)> = self.cells();
        let ghost start = self@;
        let ghost end = start.tidied(columns@, rows@);
        let mut i: usize = 0;
        while i < self.nodes.len()
            invariant
                i <= self.nodes@.len(),
                self@.links == start.links,
                self@.nodes.len() == start.nodes.len(),
                cells@.len() == start.nodes.len(),
                rows@.len() >= start.nodes.len(),
                end == start.tidied(columns@, rows@),
                forall|k: int|
                    0 <= k < cells@.len() ==> ((#[trigger] cells@[k]).0, cells@[k].1 as nat)
                        == cell(start.nodes, k),
                forall|k: int| 0 <= k < i ==> #[trigger] self@.nodes[k] == end.nodes[k],
                forall|k: int|
                    i <= k < start.nodes.len() ==> #[trigger] self@.nodes[k] == start.nodes[k],
            decreases self.nodes@.len() - i,
        {
            let (column, row): (u8, usize) = cells[i];
            proof {
                assert((cells@[i as int].0, cells@[i as int].1 as nat) == cell(
                    start.nodes,
                    i as int,
                ));
                lemma_row_fits(start.nodes, i as int, start.nodes.len());
            }
            let ghost before = self.nodes@;
            let n: &mut Node<(X, Y)> = &mut self.nodes[i];
            n.pos = (columns[column as usize], rows[row]);
            proof {
                assert(node_views(before)[i as int] == start.nodes[i as int]);
                assert(node_views(self.nodes@) =~= node_views(before).update(
                    i as int,
                    end.nodes[i as int],
                ));
            }
            i += 1;
        }
        assert(self@.nodes =~= end.nodes);
    }
}

pub open spec fn node_ref_views<P>(v: Seq<&Node<P>>) -> Seq<NodeView<P>> {
    Seq::new(v.len(), |i: int| v[i]@)
}

pub open spec fn link_ref_views(v: Seq<&Link>) -> Seq<LinkView> {
    Seq::new(v.len(), |i: int| v[i]@)
}

fn joins_two(l: &Link, a: &str, b: &str) -> (r: bool)
    ensures
        r == l@.joins(a@, b@),
{
    (same(l.from.as_str(), a) && same(l.to.as_str(), b)) || (same(l.from.as_str(), b) && same(
        l.to.as_str(),
        a,
    ))
}

/// Take the nodes of one id out of a list.
fn drop_nodes<P>(nodes: &mut Vec<Node<P>>, id: &str)
    ensures
        node_views(final(nodes)@) == nodes_without(node_views(old(nodes)@), id@),
{
    let ghost all = node_views(nodes@);
    let ghost mut k: int = 0;
    let mut i: usize = 0;
    assert(all.take(0) =~= Seq::<NodeView<P>>::empty());
    assert(node_views(nodes@) =~= nodes_without(all.take(0), id@) + all.skip(0));
    while i < nodes.len()
        invariant
            i <= nodes@.len(),
            0 <= k <= all.len(),
            nodes@.len() - i == all.len() - k,
            nodes_without(all.take(k), id@).len() == i,
            node_views(nodes@) == nodes_without(all.take(k), id@) + all.skip(k),
        decreases nodes@.len() - i,
    {
        let ghost before = node_views(nodes@);
        let ghost kept = nodes_without(all.take(k), id@);
        assert(all.take(k + 1).drop_last() =~= all.take(k));
        assert(before[i as int] == all.skip(k)[0]);
        assert(before[i as int] == nodes@[i as int]@);
        if same(nodes[i].id.as_str(), id) {
            let ghost was = nodes@;
            nodes.remove(i);
            assert(node_views(nodes@) =~= node_views(was).remove(i as int));
            assert(node_views(nodes@) =~= kept + all.skip(k + 1));
        } else {
            assert(kept + all.skip(k) =~= kept.push(all[k]) + all.skip(k + 1));
            i += 1;
        }
        proof {
            k = k + 1;
        }
    }
    assert(all.take(k) =~= all);
    assert(node_views(nodes@) =~= nodes_without(all, id@));
}

/// Take the links that touch a node out of a list.
fn drop_links(links: &mut Vec<Link>, id: &str)
    ensures
        link_views(final(links)@) == links_without(link_views(old(links)@), id@),
{
    let ghost all = link_views(links@);
    let ghost mut k: int = 0;
    let mut i: usize = 0;
    assert(all.take(0) =~= Seq::<LinkView>::empty());
    assert(link_views(links@) =~= links_without(all.take(0), id@) + all.skip(0));
    while i < links.len()
        invariant
            i <= links@.len(),
            0 <= k <= all.len(),
            links@.len() - i == all.len() - k,
            links_without(all.take(k), id@).len() == i,
            link_views(links@) == links_without(all.take(k), id@) + all.skip(k),
        decreases links@.len() - i,
    {
        let ghost before = link_views(links@);
        let ghost kept = links_without(all.take(k), id@);
        assert(all.take(k + 1).drop_last() =~= all.take(k));
        assert(before[i as int] == all.skip(k)[0]);
        assert(before[i as int] == links@[i as int]@);
        if same(links[i].from.as_str(), id) || same(links[i].to.as_str(), id) {
            let ghost was = links@;
            links.remove(i);
            assert(link_views(links@) =~= link_views(was).remove(i as int));
            assert(link_views(links@) =~= kept + all.skip(k + 1));
        } else {
            assert(kept + all.skip(k) =~= kept.push(all[k]) + all.skip(k + 1));
            i += 1;
        }
        proof {
            k = k + 1;
        }
    }
    assert(all.take(k) =~= all);
    assert(link_views(links@) =~= links_without(all, id@));
}

/// Take the proposed links between two nodes out of a list.
fn undraw_links(links: &mut Vec<Link>, a: &str, b: &str)
    ensures
        link_views(final(links)@) == links_undrawn(link_views(old(links)@), a@, b@),
{
    let ghost all = link_views(links@);
    let ghost mut k: int = 0;
    let mut i: usize = 0;
    assert(all.take(0) =~= Seq::<LinkView>::empty());
    assert(link_views(links@) =~= links_undrawn(all.take(0), a@, b@) + all.skip(0));
    while i < links.len()
        invariant
            i <= links@.len(),
            0 <= k <= all.len(),
            links@.len() - i == all.len() - k,
            links_undrawn(all.take(k), a@, b@).len() == i,
            link_views(links@) == links_undrawn(all.take(k), a@, b@) + all.skip(k),
        decreases links@.len() - i,
    {
        let ghost before = link_views(links@);
        let ghost kept = links_undrawn(all.take(k), a@, b@);
        assert(all.take(k + 1).drop_last() =~= all.take(k));
        assert(before[i as int] == all.skip(k)[0]);
        assert(before[i as int] == links@[i as int]@);
        if joins_two(&links[i], a, b) && links[i].origin == Origin::Proposed {
            let ghost was = links@;
            links.remove(i);
            assert(link_views(links@) =~= link_views(was).remove(i as int));
            assert(link_views(links@) =~= kept + all.skip(k + 1));
        } else {
            assert(kept + all.skip(k) =~= kept.push(all[k]) + all.skip(k + 1));
            i += 1;
        }
        proof {
            k = k + 1;
        }
    }
    assert(all.take(k) =~= all);
    assert(link_views(links@) =~= links_undrawn(all, a@, b@));
}

proof fn lemma_undrawn_len(links: Seq<LinkView>, a: Seq<char>, b: Seq<char>)
    ensures
        links_undrawn(links, a, b).len() <= links.len(),
        links_undrawn(links, a, b).len() < links.len() <==> (exists|i: int|
            0 <= i < links.len() && (#[trigger] links[i]).joins(a, b)
                && links[i].origin is Proposed),
    decreases links.len(),
{
    if links.len() > 0 {
        let t = links.drop_last();
        lemma_undrawn_len(t, a, b);
        assert(links[links.len() - 1] == links.last());
        if exists|i: int|
            0 <= i < t.len() && (#[trigger] t[i]).joins(a, b) && t[i].origin is Proposed {
            let i = choose|i: int|
                0 <= i < t.len() && (#[trigger] t[i]).joins(a, b) && t[i].origin is Proposed;
            assert(links[i] == t[i]);
        }
        if exists|i: int|
            0 <= i < links.len() && (#[trigger] links[i]).joins(a, b)
                && links[i].origin is Proposed {
            let i = choose|i: int|
                0 <= i < links.len() && (#[trigger] links[i]).joins(a, b)
                    && links[i].origin is Proposed;
            if i < t.len() {
                assert(t[i] == links[i]);
            }
        }
    }
}

// ---------------------------------------------------------------------------
// Laws
// ---------------------------------------------------------------------------

/// A node that is already on the canvas stays where a person put it when the
/// machine is read again, and is not put there twice.
pub proof fn a_refresh_does_not_scatter_a_layout<P>(s: SceneView<P>, node: NodeView<P>)
    requires
        s.has(node.id),
    ensures
        s.upserted(node).nodes.len() == s.nodes.len(),
        forall|i: int|
            0 <= i < s.nodes.len() ==> (#[trigger] s.upserted(node).nodes[i]).pos == s.nodes[i].pos,
{
    lemma_index_of(s.nodes, node.id);
}

/// After a node is put on the canvas, looking it up gives its facts.
pub proof fn what_was_upserted_is_found<P>(s: SceneView<P>, node: NodeView<P>)
    ensures
        ({
            let t = s.upserted(node);
            let i = index_of(t.nodes, node.id);
            &&& i is Some
            &&& t.nodes[i->0] == NodeView { pos: t.nodes[i->0].pos, ..node }
            &&& !s.has(node.id) ==> t.nodes[i->0] == node
        }),
{
    lemma_index_of(s.nodes, node.id);
    let t = s.upserted(node);
    match index_of(s.nodes, node.id) {
        Some(i) => {
            lemma_index_is(t.nodes, node.id, i);
        },
        None => {
            lemma_index_is(t.nodes, node.id, s.nodes.len() as int);
        },
    }
}

proof fn lemma_has<P>(nodes: Seq<NodeView<P>>, id: Seq<char>, i: int)
    requires
        0 <= i < nodes.len(),
        nodes[i].id == id,
    ensures
        index_of(nodes, id) is Some,
{
    lemma_index_of(nodes, id);
}

/// Putting a node on the canvas keeps the scene sound.
pub proof fn upserting_keeps_a_scene_sound<P>(s: SceneView<P>, node: NodeView<P>)
    requires
        s.wf(),
    ensures
        s.upserted(node).wf(),
{
    let t = s.upserted(node);
    lemma_index_of(s.nodes, node.id);
    assert forall|id: Seq<char>| s.has(id) implies #[trigger] t.has(id) by {
        lemma_index_of(s.nodes, id);
        let i = index_of(s.nodes, id)->0;
        assert(t.nodes[i].id == id);
        lemma_has(t.nodes, id, i);
    }
    assert forall|i: int, j: int| 0 <= i < j < t.nodes.len() implies (#[trigger] t.nodes[i]).id != (
    #[trigger] t.nodes[j]).id by {
        if j < s.nodes.len() {
            assert(t.nodes[i].id == s.nodes[i].id && t.nodes[j].id == s.nodes[j].id);
        } else {
            assert(t.nodes[i] == s.nodes[i]);
        }
    }
}

/// Joining two nodes keeps the scene sound: no node is joined to itself, to
/// what is not there, or twice.
pub proof fn connecting_keeps_a_scene_sound<P>(
    s: SceneView<P>,
    from: Seq<char>,
    to: Seq<char>,
    origin: Origin,
)
    requires
        s.wf(),
    ensures
        s.connected(from, to, origin).wf(),
{
    let t = s.connected(from, to, origin);
    if s.joinable(from, to) {
        assert forall|i: int, j: int| 0 <= i < j < t.links.len() implies !(
        #[trigger] t.links[i]).joins((#[trigger] t.links[j]).from, t.links[j].to) by {
            assert(t.links[i] == s.links[i]);
            if j < s.links.len() {
                assert(t.links[j] == s.links[j]);
            }
        }
        assert forall|i: int| 0 <= i < t.links.len() implies (#[trigger] t.links[i]).from
            != t.links[i].to && t.has(t.links[i].from) && t.has(t.links[i].to) by {
            if i < s.links.len() {
                assert(t.links[i] == s.links[i]);
            }
        }
    }
}

/// Two nodes that were just joined are joined, from either end, and a second
/// gesture changes nothing.
pub proof fn joining_twice_changes_nothing<P>(
    s: SceneView<P>,
    from: Seq<char>,
    to: Seq<char>,
    origin: Origin,
    again: Origin,
)
    requires
        s.joinable(from, to),
    ensures
        any_joins(s.connected(from, to, origin).links, from, to),
        any_joins(s.connected(from, to, origin).links, to, from),
        s.connected(from, to, origin).connected(from, to, again) == s.connected(from, to, origin),
        s.connected(from, to, origin).connected(to, from, again) == s.connected(from, to, origin),
{
    let t = s.connected(from, to, origin);
    assert(t.links[s.links.len() as int].joins(from, to));
    assert(t.links[s.links.len() as int].joins(to, from));
}

proof fn lemma_nodes_without<P>(nodes: Seq<NodeView<P>>, id: Seq<char>)
    ensures
        forall|n: NodeView<P>| #[trigger]
            nodes_without(nodes, id).contains(n) <==> nodes.contains(n) && n.id != id,
    decreases nodes.len(),
{
    if nodes.len() > 0 {
        let t = nodes.drop_last();
        lemma_nodes_without(t, id);
        let a = nodes_without(t, id);
        let b = nodes_without(nodes, id);
        assert(nodes =~= t.push(nodes.last()));
        assert forall|n: NodeView<P>| #[trigger] b.contains(n) <==> nodes.contains(n) && n.id
            != id by {
            lemma_push_contains(t, nodes.last(), n);
            lemma_push_contains(a, nodes.last(), n);
            assert(a.contains(n) <==> t.contains(n) && n.id != id);
        }
    }
}

proof fn lemma_links_without(links: Seq<LinkView>, id: Seq<char>)
    ensures
        forall|l: LinkView| #[trigger]
            links_without(links, id).contains(l) <==> links.contains(l) && !l.touches(id),
    decreases links.len(),
{
    if links.len() > 0 {
        let t = links.drop_last();
        lemma_links_without(t, id);
        let a = links_without(t, id);
        let b = links_without(links, id);
        assert(links =~= t.push(links.last()));
        assert forall|l: LinkView| #[trigger] b.contains(l) <==> links.contains(l) && !l.touches(
            id,
        ) by {
            lemma_push_contains(t, links.last(), l);
            lemma_push_contains(a, links.last(), l);
            assert(a.contains(l) <==> t.contains(l) && !l.touches(id));
        }
    }
}

proof fn lemma_links_undrawn(links: Seq<LinkView>, a: Seq<char>, b: Seq<char>)
    ensures
        forall|l: LinkView| #[trigger]
            links_undrawn(links, a, b).contains(l) <==> links.contains(l) && !(l.joins(a, b)
                && l.origin is Proposed),
    decreases links.len(),
{
    if links.len() > 0 {
        let t = links.drop_last();
        lemma_links_undrawn(t, a, b);
        let x = links_undrawn(t, a, b);
        let y = links_undrawn(links, a, b);
        assert(links =~= t.push(links.last()));
        assert forall|l: LinkView| #[trigger] y.contains(l) <==> links.contains(l) && !(l.joins(a, b)
            && l.origin is Proposed) by {
            lemma_push_contains(t, links.last(), l);
            lemma_push_contains(x, links.last(), l);
            assert(x.contains(l) <==> t.contains(l) && !(l.joins(a, b) && l.origin is Proposed));
        }
    }
}

/// No node that was read from the machine can be taken off the canvas, and
/// nothing but the node asked for goes.
pub proof fn an_observed_node_cannot_be_removed<P>(s: SceneView<P>, id: Seq<char>, n: NodeView<P>)
    requires
        s.wf(),
        s.nodes.contains(n),
        n.origin is Observed || n.id != id,
    ensures
        s.removed(id).nodes.contains(n),
{
    lemma_nodes_without(s.nodes, id);
    lemma_index_of(s.nodes, id);
    if s.removable(id) && n.id == id {
        let i = index_of(s.nodes, id)->0;
        let k = choose|k: int| 0 <= k < s.nodes.len() && s.nodes[k] == n;
        assert(s.nodes[k].id == s.nodes[i].id);
        assert(k == i);
    }
}

/// Removing a node takes it and every link to it away, and leaves every other
/// link.
pub proof fn removing_a_node_takes_its_links<P>(s: SceneView<P>, id: Seq<char>)
    requires
        s.removable(id),
    ensures
        !s.removed(id).has(id),
        forall|l: LinkView| #[trigger]
            s.removed(id).links.contains(l) <==> s.links.contains(l) && !l.touches(id),
{
    lemma_nodes_without(s.nodes, id);
    lemma_links_without(s.links, id);
    let t = s.removed(id);
    lemma_index_of(t.nodes, id);
    if t.has(id) {
        let i = index_of(t.nodes, id)->0;
        assert(t.nodes.contains(t.nodes[i]));
    }
}

/// Every node of a list without one id is a node of the list, and they stay in
/// order.
proof fn lemma_nodes_kept<P>(nodes: Seq<NodeView<P>>, id: Seq<char>)
    requires
        forall|i: int, j: int|
            0 <= i < j < nodes.len() ==> (#[trigger] nodes[i]).id != (#[trigger] nodes[j]).id,
    ensures
        forall|i: int, j: int|
            0 <= i < j < nodes_without(nodes, id).len() ==> (#[trigger] nodes_without(
                nodes,
                id,
            )[i]).id != (#[trigger] nodes_without(nodes, id)[j]).id,
    decreases nodes.len(),
{
    if nodes.len() > 0 {
        let t = nodes.drop_last();
        assert forall|i: int, j: int| 0 <= i < j < t.len() implies (#[trigger] t[i]).id != (
        #[trigger] t[j]).id by {
            assert(t[i] == nodes[i] && t[j] == nodes[j]);
        }
        lemma_nodes_kept(t, id);
        lemma_nodes_without(t, id);
        let a = nodes_without(t, id);
        let b = nodes_without(nodes, id);
        assert forall|i: int, j: int| 0 <= i < j < b.len() implies (#[trigger] b[i]).id != (
        #[trigger] b[j]).id by {
            assert(b[i] == a[i]);
            if j < a.len() {
                assert(b[j] == a[j]);
            } else {
                assert(a.contains(a[i]));
                let k = choose|k: int| 0 <= k < t.len() && t[k] == a[i];
                assert(nodes[k].id != nodes[nodes.len() - 1].id);
            }
        }
    }
}

proof fn lemma_links_kept(links: Seq<LinkView>, id: Seq<char>)
    requires
        forall|i: int, j: int|
            0 <= i < j < links.len() ==> !(#[trigger] links[i]).joins(
                (#[trigger] links[j]).from,
                links[j].to,
            ),
    ensures
        forall|i: int, j: int|
            0 <= i < j < links_without(links, id).len() ==> !(#[trigger] links_without(
                links,
                id,
            )[i]).joins(
                (#[trigger] links_without(links, id)[j]).from,
                links_without(links, id)[j].to,
            ),
    decreases links.len(),
{
    if links.len() > 0 {
        let t = links.drop_last();
        assert forall|i: int, j: int| 0 <= i < j < t.len() implies !(#[trigger] t[i]).joins(
            (#[trigger] t[j]).from,
            t[j].to,
        ) by {
            assert(t[i] == links[i] && t[j] == links[j]);
        }
        lemma_links_kept(t, id);
        lemma_links_without(t, id);
        let a = links_without(t, id);
        let b = links_without(links, id);
        assert forall|i: int, j: int| 0 <= i < j < b.len() implies !(#[trigger] b[i]).joins(
            (#[trigger] b[j]).from,
            b[j].to,
        ) by {
            assert(b[i] == a[i]);
            if j < a.len() {
                assert(b[j] == a[j]);
            } else {
                assert(a.contains(a[i]));
                let k = choose|k: int| 0 <= k < t.len() && t[k] == a[i];
                assert(!links[k].joins(links[links.len() - 1].from, links[links.len() - 1].to));
            }
        }
    }
}

/// Removing a node keeps the scene sound: no link is left that leads nowhere.
pub proof fn removing_keeps_a_scene_sound<P>(s: SceneView<P>, id: Seq<char>)
    requires
        s.wf(),
    ensures
        s.removed(id).wf(),
{
    if s.removable(id) {
        let t = s.removed(id);
        lemma_nodes_kept(s.nodes, id);
        lemma_links_kept(s.links, id);
        lemma_nodes_without(s.nodes, id);
        lemma_links_without(s.links, id);
        assert forall|i: int| 0 <= i < t.links.len() implies (#[trigger] t.links[i]).from
            != t.links[i].to && t.has(t.links[i].from) && t.has(t.links[i].to) by {
            let l = t.links[i];
            assert(t.links.contains(l));
            let k = choose|k: int| 0 <= k < s.links.len() && s.links[k] == l;
            assert(s.links[k].from != s.links[k].to);
            lemma_still_has(s, id, l.from);
            lemma_still_has(s, id, l.to);
        }
    }
}

proof fn lemma_still_has<P>(s: SceneView<P>, id: Seq<char>, other: Seq<char>)
    requires
        s.has(other),
        other != id,
    ensures
        index_of(nodes_without(s.nodes, id), other) is Some,
{
    let t = nodes_without(s.nodes, id);
    lemma_nodes_without(s.nodes, id);
    lemma_index_of(s.nodes, other);
    let n = s.nodes[index_of(s.nodes, other)->0];
    assert(s.nodes.contains(n));
    assert(t.contains(n));
    let k = choose|k: int| 0 <= k < t.len() && t[k] == n;
    lemma_has(t, other, k);
}

/// A link that the machine reported cannot be drawn away, and nothing but the
/// proposed links between the two nodes goes.
pub proof fn an_observed_link_cannot_be_removed<P>(
    s: SceneView<P>,
    from: Seq<char>,
    to: Seq<char>,
    l: LinkView,
)
    ensures
        s.disconnected(from, to).links.contains(l) <==> s.links.contains(l) && (l.origin is Observed
            || !l.joins(from, to)),
        s.disconnected(from, to).nodes == s.nodes,
{
    lemma_links_undrawn(s.links, from, to);
}

proof fn lemma_links_left(links: Seq<LinkView>, a: Seq<char>, b: Seq<char>)
    requires
        forall|i: int, j: int|
            0 <= i < j < links.len() ==> !(#[trigger] links[i]).joins(
                (#[trigger] links[j]).from,
                links[j].to,
            ),
    ensures
        forall|i: int, j: int|
            0 <= i < j < links_undrawn(links, a, b).len() ==> !(#[trigger] links_undrawn(
                links,
                a,
                b,
            )[i]).joins(
                (#[trigger] links_undrawn(links, a, b)[j]).from,
                links_undrawn(links, a, b)[j].to,
            ),
    decreases links.len(),
{
    if links.len() > 0 {
        let t = links.drop_last();
        assert forall|i: int, j: int| 0 <= i < j < t.len() implies !(#[trigger] t[i]).joins(
            (#[trigger] t[j]).from,
            t[j].to,
        ) by {
            assert(t[i] == links[i] && t[j] == links[j]);
        }
        lemma_links_left(t, a, b);
        lemma_links_undrawn(t, a, b);
        let x = links_undrawn(t, a, b);
        let y = links_undrawn(links, a, b);
        assert forall|i: int, j: int| 0 <= i < j < y.len() implies !(#[trigger] y[i]).joins(
            (#[trigger] y[j]).from,
            y[j].to,
        ) by {
            assert(y[i] == x[i]);
            if j < x.len() {
                assert(y[j] == x[j]);
            } else {
                assert(x.contains(x[i]));
                let k = choose|k: int| 0 <= k < t.len() && t[k] == x[i];
                assert(!links[k].joins(links[links.len() - 1].from, links[links.len() - 1].to));
            }
        }
    }
}

/// Taking a link back keeps the scene sound.
pub proof fn disconnecting_keeps_a_scene_sound<P>(s: SceneView<P>, from: Seq<char>, to: Seq<char>)
    requires
        s.wf(),
    ensures
        s.disconnected(from, to).wf(),
{
    let t = s.disconnected(from, to);
    lemma_links_left(s.links, from, to);
    lemma_links_undrawn(s.links, from, to);
    assert forall|i: int| 0 <= i < t.links.len() implies (#[trigger] t.links[i]).from
        != t.links[i].to && t.has(t.links[i].from) && t.has(t.links[i].to) by {
        assert(t.links.contains(t.links[i]));
        let k = choose|k: int| 0 <= k < s.links.len() && s.links[k] == t.links[i];
        assert(s.links[k].from != s.links[k].to);
    }
}

/// What a person proposed is exactly what an apply has to carry out: the
/// proposed nodes, and no observed one.
pub proof fn the_proposal_is_the_proposed_nodes<P>(nodes: Seq<NodeView<P>>, n: NodeView<P>)
    ensures
        proposed_nodes(nodes).contains(n) <==> nodes.contains(n) && n.origin is Proposed,
    decreases nodes.len(),
{
    if nodes.len() > 0 {
        let t = nodes.drop_last();
        the_proposal_is_the_proposed_nodes(t, n);
        assert(nodes =~= t.push(nodes.last()));
        lemma_push_contains(t, nodes.last(), n);
        lemma_push_contains(proposed_nodes(t), nodes.last(), n);
    }
}

/// The same of the links.
pub proof fn the_proposal_is_the_proposed_links(links: Seq<LinkView>, l: LinkView)
    ensures
        proposed_links(links).contains(l) <==> links.contains(l) && l.origin is Proposed,
    decreases links.len(),
{
    if links.len() > 0 {
        let t = links.drop_last();
        the_proposal_is_the_proposed_links(t, l);
        assert(links =~= t.push(links.last()));
        lemma_push_contains(t, links.last(), l);
        lemma_push_contains(proposed_links(t), links.last(), l);
    }
}

/// A node has fewer nodes ahead of it than there are.
proof fn lemma_row_fits<P>(nodes: Seq<NodeView<P>>, i: int, n: nat)
    ensures
        ahead(nodes, i, n) + (if 0 <= i < n {
            1nat
        } else {
            0
        }) <= n,
    decreases n,
{
    if n > 0 {
        lemma_row_fits(nodes, i, (n - 1) as nat);
    }
}

proof fn lemma_ahead_grows<P>(nodes: Seq<NodeView<P>>, i: int, j: int, n: nat)
    requires
        0 <= i < nodes.len(),
        0 <= j < nodes.len(),
        precedes(nodes, i, j),
        i != j,
        n <= nodes.len(),
    ensures
        ahead(nodes, i, n) + (if i < n {
            1nat
        } else {
            0
        }) <= ahead(nodes, j, n),
    decreases n,
{
    if n > 0 {
        lemma_ahead_grows(nodes, i, j, (n - 1) as nat);
        let k = n - 1;
        if precedes(nodes, k, i) {
            lemma_lex_transitive(nodes[k].label, nodes[i].label, nodes[j].label);
            if nodes[k].label == nodes[j].label {
                lemma_lex_antisymmetric(nodes[i].label, nodes[j].label);
                lemma_lex_transitive(nodes[k].id, nodes[i].id, nodes[j].id);
                if nodes[k].id == nodes[j].id {
                    lemma_lex_antisymmetric(nodes[i].id, nodes[j].id);
                }
            }
            assert(precedes(nodes, k, j));
        }
    }
}

/// A column is in the order of its labels, and of two nodes that are labelled
/// alike, in the order of their ids.
pub proof fn a_column_is_in_order<P>(nodes: Seq<NodeView<P>>, i: int, j: int)
    requires
        0 <= i < nodes.len(),
        0 <= j < nodes.len(),
        i != j,
        cell(nodes, i).0 == cell(nodes, j).0,
    ensures
        cell(nodes, i).1 < cell(nodes, j).1 <==> precedes(nodes, i, j),
        cell(nodes, j).1 < cell(nodes, i).1 <==> precedes(nodes, j, i),
        precedes(nodes, i, j) <==> !precedes(nodes, j, i),
{
    lemma_lex_total(nodes[i].label, nodes[j].label);
    lemma_lex_total(nodes[i].id, nodes[j].id);
    if precedes(nodes, i, j) {
        lemma_ahead_grows(nodes, i, j, nodes.len());
    }
    if precedes(nodes, j, i) {
        lemma_ahead_grows(nodes, j, i, nodes.len());
    }
}

/// Tidying puts no two nodes in one place.
pub proof fn no_two_nodes_share_a_cell<P>(nodes: Seq<NodeView<P>>, i: int, j: int)
    requires
        0 <= i < nodes.len(),
        0 <= j < nodes.len(),
        i != j,
    ensures
        cell(nodes, i) != cell(nodes, j),
{
    if cell(nodes, i).0 == cell(nodes, j).0 {
        a_column_is_in_order(nodes, i, j);
    }
}

/// Those of the first `n` nodes that come before node `i` in its column.
spec fn those_ahead<P>(nodes: Seq<NodeView<P>>, i: int, n: nat) -> Set<int> {
    Set::new(|j: int| 0 <= j < n && precedes(nodes, j, i))
}

proof fn lemma_those_ahead<P>(nodes: Seq<NodeView<P>>, i: int, n: nat)
    ensures
        those_ahead(nodes, i, n).finite(),
        those_ahead(nodes, i, n).len() == ahead(nodes, i, n),
    decreases n,
{
    let all = those_ahead(nodes, i, n);
    if n == 0 {
        assert(all =~= Set::empty());
    } else {
        let m = (n - 1) as nat;
        let fewer = those_ahead(nodes, i, m);
        lemma_those_ahead(nodes, i, m);
        if precedes(nodes, n - 1, i) {
            assert(all =~= fewer.insert(n - 1));
        } else {
            assert(all =~= fewer);
        }
    }
}

/// A column is filled from the top: above a node no row is left empty.
pub proof fn a_column_has_no_gaps<P>(nodes: Seq<NodeView<P>>, i: int, row: nat)
    requires
        0 <= i < nodes.len(),
        row < cell(nodes, i).1,
    ensures
        exists|j: int|
            0 <= j < nodes.len() && #[trigger] cell(nodes, j) == (cell(nodes, i).0, row),
{
    let n = nodes.len();
    let top = cell(nodes, i).1 as int;
    let s = those_ahead(nodes, i, n);
    let f = |j: int| ahead(nodes, j, n) as int;
    let all = set_int_range(0, top);
    lemma_those_ahead(nodes, i, n);
    lemma_int_range(0, top);
    assert(injective_on(f, s)) by {
        assert forall|a: int, b: int|
            s.contains(a) && s.contains(b) && #[trigger] f(a) == #[trigger] f(b) implies a == b by {
            if a != b {
                no_two_nodes_share_a_cell(nodes, a, b);
            }
        }
    }
    lemma_map_size(s, s.map(f), f);
    assert forall|r: int| s.map(f).contains(r) implies #[trigger] all.contains(r) by {
        let j = choose|j: int| s.contains(j) && r == f(j);
        lemma_ahead_grows(nodes, j, i, n);
    }
    lemma_subset_equality(s.map(f), all);
    assert(all.contains(row as int));
    let j = choose|j: int| s.contains(j) && row as int == f(j);
    assert(cell(nodes, j) == (cell(nodes, i).0, row));
}

/// Tidying reads left to right along a path: the machine, then its programs,
/// then what they pass through on it, then its interfaces and tunnels, then
/// what is off it.
pub proof fn tidying_reads_left_to_right<P>(nodes: Seq<NodeView<P>>, i: int, j: int)
    ensures
        cell(nodes, i).0 < cell(nodes, j).0 <==> nodes[i].kind.column() < nodes[j].kind.column(),
        Kind::Host.column() < Kind::Program.column() < Kind::Tor.column()
            < Kind::Interface.column() < Kind::Destination.column(),
        Kind::LocalService.column() == Kind::Tor.column(),
        Kind::Tunnel.column() == Kind::Interface.column(),
        Kind::Internet.column() == Kind::Destination.column(),
{
}

proof fn lemma_ahead_alike<P>(a: Seq<NodeView<P>>, b: Seq<NodeView<P>>, i: int, n: nat)
    requires
        a.len() == b.len(),
        0 <= i < a.len(),
        n <= a.len(),
        forall|k: int|
            0 <= k < a.len() ==> (#[trigger] a[k]).kind == b[k].kind && a[k].label == b[k].label
                && a[k].id == b[k].id,
    ensures
        ahead(a, i, n) == ahead(b, i, n),
    decreases n,
{
    if n > 0 {
        lemma_ahead_alike(a, b, i, (n - 1) as nat);
        assert(a[n - 1].kind == b[n - 1].kind && a[i].kind == b[i].kind);
    }
}

/// Where the nodes are does not matter to a tidy, so a second one moves
/// nothing.
pub proof fn tidying_twice_moves_nothing<X, Y>(
    s: SceneView<(X, Y)>,
    columns: Seq<X>,
    rows: Seq<Y>,
)
    ensures
        s.tidied(columns, rows).tidied(columns, rows) == s.tidied(columns, rows),
{
    let once = s.tidied(columns, rows);
    let twice = once.tidied(columns, rows);
    assert forall|i: int| 0 <= i < s.nodes.len() implies #[trigger] twice.nodes[i]
        == once.nodes[i] by {
        lemma_ahead_alike(s.nodes, once.nodes, i, s.nodes.len());
    }
    assert(twice.nodes =~= once.nodes);
}

/// What tidying looks at of a node. Where it stood is not part of it.
pub struct Face {
    pub id: Seq<char>,
    pub kind: Kind,
    pub label: Seq<char>,
}

/// What tidying looks at of some nodes.
pub open spec fn faces<P>(nodes: Seq<NodeView<P>>) -> Seq<Face> {
    Seq::new(
        nodes.len(),
        |i: int| Face { id: nodes[i].id, kind: nodes[i].kind, label: nodes[i].label },
    )
}

/// Whether no two nodes have one id.
pub open spec fn ids_differ<P>(nodes: Seq<NodeView<P>>) -> bool {
    forall|i: int, j: int|
        0 <= i < nodes.len() && 0 <= j < nodes.len() && i != j ==> (#[trigger] nodes[i]).id != (
        #[trigger] nodes[j]).id
}

/// Whether one node belongs before another in its column.
spec fn sorts_before(n: Face, other: Face) -> bool {
    &&& n.kind.column() == other.kind.column()
    &&& lex_le(n.label, other.label)
    &&& n.label == other.label ==> lex_le(n.id, other.id) && n.id != other.id
}

spec fn how_many_before(faces: Seq<Face>, other: Face) -> nat
    decreases faces.len(),
{
    if faces.len() == 0 {
        0
    } else {
        how_many_before(faces.drop_last(), other) + if sorts_before(faces.last(), other) {
            1nat
        } else {
            0
        }
    }
}

proof fn lemma_ahead_counts<P>(nodes: Seq<NodeView<P>>, i: int, n: nat)
    requires
        0 <= i < nodes.len(),
        n <= nodes.len(),
        ids_differ(nodes),
    ensures
        ahead(nodes, i, n) == how_many_before(faces(nodes).take(n as int), faces(nodes)[i]),
    decreases n,
{
    if n > 0 {
        lemma_ahead_counts(nodes, i, (n - 1) as nat);
        assert(faces(nodes).take(n as int).drop_last() =~= faces(nodes).take(n - 1));
        assert(faces(nodes).take(n as int).last() == faces(nodes)[n - 1]);
        assert(n - 1 != i ==> nodes[n - 1].id != nodes[i].id);
    }
}

proof fn lemma_before_removed(s: Seq<Face>, k: int, other: Face)
    requires
        0 <= k < s.len(),
    ensures
        how_many_before(s, other) == how_many_before(s.remove(k), other) + if sorts_before(
            s[k],
            other,
        ) {
            1nat
        } else {
            0
        },
    decreases s.len(),
{
    if k == s.len() - 1 {
        assert(s.remove(k) =~= s.drop_last());
    } else {
        lemma_before_removed(s.drop_last(), k, other);
        assert(s.remove(k).drop_last() =~= s.drop_last().remove(k));
        assert(s.remove(k).last() == s.last());
    }
}

proof fn lemma_before_permuted(a: Seq<Face>, b: Seq<Face>, other: Face)
    requires
        a.to_multiset() == b.to_multiset(),
    ensures
        how_many_before(a, other) == how_many_before(b, other),
    decreases a.len(),
{
    broadcast use vstd::seq_lib::group_to_multiset_ensures;

    assert(a.to_multiset().len() == a.len());
    assert(b.to_multiset().len() == b.len());
    if a.len() > 0 {
        let x = a.last();
        assert(a.to_multiset().count(x) > 0) by {
            assert(a.contains(x));
        }
        assert(b.contains(x));
        let k = choose|k: int| 0 <= k < b.len() && b[k] == x;
        assert(a.remove(a.len() - 1) =~= a.drop_last());
        assert(a.drop_last().to_multiset() =~= b.remove(k).to_multiset());
        lemma_before_permuted(a.drop_last(), b.remove(k), other);
        lemma_before_removed(b, k, other);
    }
}

proof fn lemma_same_cell<P>(a: Seq<NodeView<P>>, b: Seq<NodeView<P>>, i: int, j: int)
    requires
        ids_differ(a),
        ids_differ(b),
        faces(a).to_multiset() == faces(b).to_multiset(),
        0 <= i < a.len(),
        0 <= j < b.len(),
        a[i].id == b[j].id,
    ensures
        cell(a, i) == cell(b, j),
{
    broadcast use vstd::seq_lib::group_to_multiset_ensures;

    let x = faces(a)[i];
    assert(faces(a).contains(x));
    assert(faces(a).to_multiset().count(x) > 0);
    assert(faces(b).contains(x));
    let k = choose|k: int| 0 <= k < faces(b).len() && faces(b)[k] == x;
    assert(b[k].id == b[j].id);
    assert(k == j);
    lemma_ahead_counts(a, i, a.len());
    lemma_ahead_counts(b, j, b.len());
    assert(faces(a).take(a.len() as int) =~= faces(a));
    assert(faces(b).take(b.len() as int) =~= faces(b));
    lemma_before_permuted(faces(a), faces(b), x);
}

/// The same topology tidies to the same picture: neither the order in which the
/// machine reports things nor where they stood before changes where a node is
/// put.
pub proof fn tidying_does_not_depend_on_the_order<X, Y>(
    s: SceneView<(X, Y)>,
    t: SceneView<(X, Y)>,
    columns: Seq<X>,
    rows: Seq<Y>,
    i: int,
    j: int,
)
    requires
        ids_differ(s.nodes),
        ids_differ(t.nodes),
        faces(s.nodes).to_multiset() == faces(t.nodes).to_multiset(),
        0 <= i < s.nodes.len(),
        0 <= j < t.nodes.len(),
        s.nodes[i].id == t.nodes[j].id,
    ensures
        s.tidied(columns, rows).nodes[i].pos == t.tidied(columns, rows).nodes[j].pos,
{
    lemma_same_cell(s.nodes, t.nodes, i, j);
}

/// Tidying changes where the nodes are and nothing else: every node keeps its
/// place in the list and every other fact about it, and the links stay. It is as
/// far to the right as its column and as far down as its row.
pub proof fn tidying_only_moves_nodes<X, Y>(
    s: SceneView<(X, Y)>,
    columns: Seq<X>,
    rows: Seq<Y>,
    i: int,
)
    requires
        0 <= i < s.nodes.len(),
    ensures
        ({
            let n = s.tidied(columns, rows).nodes[i];
            &&& n == NodeView { pos: n.pos, ..s.nodes[i] }
            &&& n.pos.0 == columns[s.nodes[i].kind.column() as int]
            &&& n.pos.1 == rows[cell(s.nodes, i).1 as int]
        }),
        s.tidied(columns, rows).nodes.len() == s.nodes.len(),
        s.tidied(columns, rows).links == s.links,
{
}

/// What is taken off or picked out leaves the rest in the order it has: these are
/// the nodes and the links for which something holds, and nothing more.
pub proof fn what_stays_keeps_its_order<P>(
    nodes: Seq<NodeView<P>>,
    links: Seq<LinkView>,
    a: Seq<char>,
    b: Seq<char>,
)
    ensures
        nodes_without(nodes, a) == nodes.filter(|n: NodeView<P>| n.id != a),
        links_without(links, a) == links.filter(|l: LinkView| l.from != a && l.to != a),
        links_undrawn(links, a, b) == links.filter(
            |l: LinkView|
                l.origin is Observed || !(l.from == a && l.to == b || l.from == b && l.to == a),
        ),
        proposed_nodes(nodes) == nodes.filter(|n: NodeView<P>| n.origin is Proposed),
        proposed_links(links) == links.filter(|l: LinkView| l.origin is Proposed),
    decreases nodes.len() + links.len(),
{
    reveal(Seq::filter);
    let f = |n: NodeView<P>| n.id != a;
    let g = |l: LinkView| l.from != a && l.to != a;
    let h = |l: LinkView|
        l.origin is Observed || !(l.from == a && l.to == b || l.from == b && l.to == a);
    let p = |n: NodeView<P>| n.origin is Proposed;
    let q = |l: LinkView| l.origin is Proposed;
    if nodes.len() > 0 {
        what_stays_keeps_its_order(nodes.drop_last(), links, a, b);
        assert(nodes_without(nodes, a) =~= nodes.filter(f));
        assert(proposed_nodes(nodes) =~= nodes.filter(p));
    } else {
        assert(nodes_without(nodes, a) =~= nodes.filter(f));
        assert(proposed_nodes(nodes) =~= nodes.filter(p));
    }
    if links.len() > 0 {
        what_stays_keeps_its_order(nodes, links.drop_last(), a, b);
        assert(links_without(links, a) =~= links.filter(g));
        assert(links_undrawn(links, a, b) =~= links.filter(h));
        assert(proposed_links(links) =~= links.filter(q));
    } else {
        assert(links_without(links, a) =~= links.filter(g));
        assert(links_undrawn(links, a, b) =~= links.filter(h));
        assert(proposed_links(links) =~= links.filter(q));
    }
}

/// Putting a node on the canvas leaves every other node and every link as it was,
/// and adds no more than one.
pub proof fn upserting_leaves_everything_else<P>(s: SceneView<P>, node: NodeView<P>, i: int)
    requires
        s.wf(),
        0 <= i < s.nodes.len(),
    ensures
        s.nodes[i].id != node.id ==> s.upserted(node).nodes[i] == s.nodes[i],
        s.nodes[i].id == node.id ==> s.upserted(node).nodes[i] == (NodeView {
            pos: s.nodes[i].pos,
            ..node
        }),
        s.nodes[i].id == node.id ==> s.upserted(node).nodes.len() == s.nodes.len(),
        (forall|k: int| 0 <= k < s.nodes.len() ==> (#[trigger] s.nodes[k]).id != node.id)
            ==> s.upserted(node).nodes == s.nodes + seq![node],
        s.upserted(node).links == s.links,
{
    lemma_index_of(s.nodes, node.id);
    if s.nodes[i].id == node.id {
        lemma_has(s.nodes, node.id, i);
        let k = index_of(s.nodes, node.id)->0;
        assert(s.nodes[k].id == s.nodes[i].id);
        assert(k == i);
    }
    assert(s.nodes + seq![node] =~= s.nodes.push(node));
}

/// Two different nodes that are there and are not joined yet are joined by one more
/// link, which goes the way it was drawn; otherwise nothing changes.
pub proof fn joining_adds_one_link<P>(
    s: SceneView<P>,
    from: Seq<char>,
    to: Seq<char>,
    origin: Origin,
)
    ensures
        ({
            let there = |id: Seq<char>|
                exists|i: int| 0 <= i < s.nodes.len() && (#[trigger] s.nodes[i]).id == id;
            let drawn = exists|i: int|
                0 <= i < s.links.len() && ((#[trigger] s.links[i]).from == from && s.links[i].to
                    == to || s.links[i].from == to && s.links[i].to == from);
            let t = s.connected(from, to, origin);
            &&& t.nodes == s.nodes
            &&& from != to && there(from) && there(to) && !drawn ==> t.links == s.links + seq![
                LinkView { from, to, origin, weight: 0 },
            ]
            &&& from == to || !there(from) || !there(to) || drawn ==> t.links == s.links
        }),
{
    lemma_index_of(s.nodes, from);
    lemma_index_of(s.nodes, to);
    let link = LinkView { from, to, origin, weight: 0 };
    assert(s.links + seq![link] =~= s.links.push(link));
    let drawn = exists|i: int|
        0 <= i < s.links.len() && ((#[trigger] s.links[i]).from == from && s.links[i].to == to
            || s.links[i].from == to && s.links[i].to == from);
    assert(drawn == any_joins(s.links, from, to)) by {
        if drawn {
            let i = choose|i: int|
                0 <= i < s.links.len() && ((#[trigger] s.links[i]).from == from && s.links[i].to
                    == to || s.links[i].from == to && s.links[i].to == from);
            assert(s.links[i].joins(from, to));
        }
    }
    assert(s.has(from) ==> s.nodes[index_of(s.nodes, from)->0].id == from);
    assert(s.has(to) ==> s.nodes[index_of(s.nodes, to)->0].id == to);
}

/// A node that a person put on the canvas can be taken off again; what was read from
/// the machine, or is not there, cannot.
pub proof fn what_was_proposed_can_be_removed<P>(s: SceneView<P>, i: int, id: Seq<char>)
    requires
        s.wf(),
        0 <= i < s.nodes.len(),
    ensures
        s.removable(s.nodes[i].id) <==> s.nodes[i].origin is Proposed,
        s.nodes[i].origin is Proposed ==> s.removed(s.nodes[i].id).nodes.len() < s.nodes.len(),
        s.nodes[i].origin is Observed ==> s.removed(s.nodes[i].id) == s,
        (forall|k: int| 0 <= k < s.nodes.len() ==> (#[trigger] s.nodes[k]).id != id) ==> s.removed(
            id,
        ) == s,
{
    let name = s.nodes[i].id;
    lemma_index_of(s.nodes, name);
    lemma_index_of(s.nodes, id);
    lemma_has(s.nodes, name, i);
    let k = index_of(s.nodes, name)->0;
    assert(s.nodes[k].id == s.nodes[i].id);
    assert(k == i);
    lemma_fewer_without(s.nodes, name, i);
}

proof fn lemma_fewer_without<P>(nodes: Seq<NodeView<P>>, id: Seq<char>, i: int)
    requires
        0 <= i < nodes.len(),
        nodes[i].id == id,
    ensures
        nodes_without(nodes, id).len() < nodes.len(),
    decreases nodes.len(),
{
    let t = nodes.drop_last();
    lemma_no_more_without(t, id);
    if i < t.len() {
        lemma_fewer_without(t, id, i);
    }
}

proof fn lemma_no_more_without<P>(nodes: Seq<NodeView<P>>, id: Seq<char>)
    ensures
        nodes_without(nodes, id).len() <= nodes.len(),
    decreases nodes.len(),
{
    if nodes.len() > 0 {
        lemma_no_more_without(nodes.drop_last(), id);
    }
}

/// Of two nodes in a column the one whose label comes first stands above the other,
/// and where the labels are alike, the one whose id does.
pub proof fn labels_order_a_column<P>(nodes: Seq<NodeView<P>>, i: int, j: int)
    requires
        0 <= i < nodes.len(),
        0 <= j < nodes.len(),
        nodes[i].kind == nodes[j].kind,
    ensures
        nodes[i].label != nodes[j].label && lex_le(nodes[i].label, nodes[j].label) ==> cell(
            nodes,
            i,
        ).1 < cell(nodes, j).1,
        nodes[i].label == nodes[j].label && nodes[i].id != nodes[j].id && lex_le(
            nodes[i].id,
            nodes[j].id,
        ) ==> cell(nodes, i).1 < cell(nodes, j).1,
{
    if i != j {
        a_column_is_in_order(nodes, i, j);
    }
}

/// Every kind has a word of its own, and a person can add what does not have to be
/// there yet: a tunnel, Tor, a destination. The machine, its programs, its
/// interfaces, its services and the internet are what they are.
pub proof fn a_kind_has_its_own_word(a: Kind, b: Kind)
    ensures
        a.word() == b.word() ==> a == b,
        a is Host || a is Program || a is Interface || a is LocalService || a is Internet
            ==> !a.addable(),
        a is Tunnel || a is Tor || a is Destination ==> a.addable(),
        a.column() <= 4,
{
    reveal_strlit("this machine");
    reveal_strlit("program");
    reveal_strlit("interface");
    reveal_strlit("tunnel");
    reveal_strlit("Tor");
    reveal_strlit("local service");
    reveal_strlit("destination");
    reveal_strlit("internet");
    assert("this machine"@.len() == 12 && "program"@.len() == 7 && "interface"@.len() == 9);
    assert("tunnel"@.len() == 6 && "Tor"@.len() == 3 && "local service"@.len() == 13);
    assert("destination"@.len() == 11 && "internet"@.len() == 8);
}

} // verus!
