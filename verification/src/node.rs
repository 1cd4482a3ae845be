//! Nodes and the context that holds them.

use crate::connection::{Envelope, EnvelopeView, Packet, PacketView, PACKET_MAGIC};
use crate::encode::Cursor;
use crate::idset::add_conns;
use crate::links::{link, taken_in, unlink, walk, walk_node, walked, with_parent};
use crate::links::{without_parent, Pass};
use crate::visitor::updater::{received, send_update, sent_update, update_header, write_header};
use crate::visitor::updater::{maybe_view, message_used, CallUpdate, UpdateOp};
use crate::encode::{count, count_of};
use crate::value::Scalar;
use crate::{Error, Fault};
use vstd::utf8::encode_utf8;
use vstd::slice::slice_to_vec;
use crate::value::{Schema, SchemaView, Value, ValueView};
use std::collections::HashMap;
use vstd::prelude::*;

verus! {

/// The side of the wire that a context belongs to.
#[derive(Clone, Copy, Debug, PartialEq, Eq, Structural)]
pub enum Role {
    Server,
    Client,
    /// Either side.
    Agnostic,
}

/// A marker for the side of the wire.
pub trait Tag: Sized {
    /// The side that the marker stands for.
    spec fn spec_role() -> Role;

    /// The side that the marker stands for.
    fn role() -> (r: Role)
        ensures
            r == Self::spec_role(),
    ;
}

/// Marks what belongs to the server.
#[derive(Default)]
pub struct TagServer;

/// Marks what belongs to a client.
#[derive(Default)]
pub struct TagClient;

/// Marks what belongs to either side.
#[derive(Default)]
pub struct TagAgnostic;

impl Tag for TagServer {
    open spec fn spec_role() -> Role {
        Role::Server
    }

    fn role() -> (r: Role) {
        Role::Server
    }
}

impl Tag for TagClient {
    open spec fn spec_role() -> Role {
        Role::Client
    }

    fn role() -> (r: Role) {
        Role::Client
    }
}

impl Tag for TagAgnostic {
    open spec fn spec_role() -> Role {
        Role::Agnostic
    }

    fn role() -> (r: Role) {
        Role::Agnostic
    }
}

/// What a node holds: a value and its shape.
#[derive(Debug)]
pub struct Content {
    /// The shape of the value.
    pub schema: Schema,
    /// The value.
    pub val: Value,
}

/// What is kept about a node beside its value: who has to hear of its
/// changes, and whether it has changed.
#[derive(Debug)]
pub struct Book {
    /// The side of the wire that the node lives on.
    pub role: Role,
    /// The ids of the nodes whose values refer to this one.
    pub refs: Vec<u32>,
    /// The ids of the connections that hear of changes to this node.
    pub conns: Vec<usize>,
    /// The connection whose root this node is, if it is a root.
    pub root: Option<usize>,
    /// Whether an update was applied since this was last asked.
    pub changed: bool,
}

/// The model of a node.
pub ghost struct NodeView {
    pub id: u32,
    pub role: Role,
    pub schema: SchemaView,
    pub value: ValueView,
    pub parents: Set<u32>,
    pub conns: Set<usize>,
    pub root: Option<usize>,
    pub changed: bool,
}

/// The nodes of a context, by id.
pub type Graph = Map<u32, NodeView>;

/// A node that has just been made: nothing refers to it and no connection
/// hears of it.
pub open spec fn fresh_node(id: u32, role: Role, schema: SchemaView, value: ValueView) -> NodeView {
    NodeView {
        id,
        role,
        schema,
        value,
        parents: Set::empty(),
        conns: Set::empty(),
        root: None,
        changed: false,
    }
}

/// The model of the node `id` with the content `c` and the book `b`.
pub open spec fn node_view(id: u32, c: Content, b: Book) -> NodeView {
    NodeView {
        id,
        role: b.role,
        schema: c.schema@,
        value: c.val@,
        parents: b.refs@.to_set(),
        conns: b.conns@.to_set(),
        root: b.root,
        changed: b.changed,
    }
}

/// The nodes that the two maps of a context stand for: one node for each id
/// that has a content, with its book, or with a blank book where it has
/// none.
pub open spec fn graph_of(contents: Map<u32, Content>, books: Map<u32, Book>, role: Role) -> Graph {
    Map::new(
        |id: u32| contents.contains_key(id),
        |id: u32|
            if books.contains_key(id) {
                node_view(id, contents[id], books[id])
            } else {
                fresh_node(id, role, contents[id].schema@, contents[id].val@)
            },
    )
}

/// A counter of ids: it starts at 1 and only goes up, so that 0 is never
/// handed out.
pub struct Counter {
    n: u32,
}

impl Counter {
    #[verifier::type_invariant]
    spec fn above_zero(&self) -> bool {
        self.n > 0
    }

    /// The id that is handed out next.
    pub closed spec fn value(&self) -> u32 {
        self.n
    }

    /// A counter that hands out 1 first.
    pub fn new() -> (c: Counter)
        ensures
            c.value() == 1,
    {
        Counter { n: 1 }
    }

    /// The id that is handed out next; it is above 0.
    pub fn get(&self) -> (n: u32)
        ensures
            n == self.value(),
            n > 0,
    {
        proof {
            use_type_invariant(self);
        }
        self.n
    }

    /// Goes on to the next id.
    pub fn step(&mut self)
        requires
            old(self).value() < u32::MAX,
        ensures
            final(self).value() == old(self).value() + 1,
    {
        proof {
            use_type_invariant(&*self);
        }
        self.n = self.n + 1;
    }
}

/// The nodes of one endpoint, the next id to hand out, and the packets that
/// wait to be sent.
pub struct NodeContext {
    role: Role,
    contents: HashMap<u32, Content>,
    books: HashMap<u32, Book>,
    next: Counter,
    outbox: Vec<Envelope>,
}

/// The model of a context.
pub ghost struct ContextView {
    pub role: Role,
    pub nodes: Graph,
    pub next: u32,
    pub outbox: Seq<EnvelopeView>,
}

/// The models of a row of envelopes.
pub open spec fn envelopes_view(outbox: Seq<Envelope>) -> Seq<EnvelopeView> {
    Seq::new(outbox.len(), |i: int| outbox[i]@)
}

impl View for NodeContext {
    type V = ContextView;

    closed spec fn view(&self) -> ContextView {
        ContextView {
            role: self.role,
            nodes: graph_of(self.contents@, self.books@, self.role),
            next: self.next.value(),
            outbox: envelopes_view(self.outbox@),
        }
    }
}

impl NodeContext {
    /// An empty context for the side that `G` marks. The first id that it
    /// hands out is 1.
    pub fn new<G: Tag>() -> (ctx: NodeContext)
        ensures
            ctx@.role == G::spec_role(),
            ctx@.nodes == Map::<u32, NodeView>::empty(),
            ctx@.next == 1,
            ctx@.outbox == Seq::<EnvelopeView>::empty(),
    {
        let ctx = NodeContext {
            role: G::role(),
            contents: HashMap::new(),
            books: HashMap::new(),
            next: Counter::new(),
            outbox: Vec::new(),
        };
        assert(ctx@.nodes =~= Map::<u32, NodeView>::empty());
        assert(ctx@.outbox =~= Seq::<EnvelopeView>::empty());
        ctx
    }

    /// The side of the wire that the context belongs to.
    pub fn role(&self) -> (r: Role)
        ensures
            r == self@.role,
    {
        self.role
    }

    /// The id that the next node made here gets.
    pub fn next_id(&self) -> (n: u32)
        ensures
            n == self@.next,
            n > 0,
    {
        self.next.get()
    }

    /// The value and shape of the node with the given id, if the context
    /// holds one.
    pub fn get(&self, id: u32) -> (r: Option<&Content>)
        ensures
            match r {
                Some(c) => self@.nodes.contains_key(id) && self@.nodes[id].schema == c.schema@
                    && self@.nodes[id].value == c.val@,
                None => !self@.nodes.contains_key(id),
            },
    {
        self.contents.get(&id)
    }

    /// Whether the context holds no node at all.
    pub fn is_empty(&self) -> (r: bool)
        ensures
            r == (self@.nodes == Map::<u32, NodeView>::empty()),
    {
        let r = self.contents.is_empty();
        if r {
            assert(self.contents@ =~= Map::<u32, Content>::empty());
            assert(self@.nodes =~= Map::<u32, NodeView>::empty());
        } else {
            assert(!(self.contents@ =~= Map::<u32, Content>::empty()));
            let ghost k = choose|k: u32| self.contents@.contains_key(k);
            assert(self@.nodes.contains_key(k));
        }
        r
    }

    /// Whether the context holds a node with the given id.
    pub fn contains(&self, id: u32) -> (r: bool)
        ensures
            r == self@.nodes.contains_key(id),
    {
        self.contents.contains_key(&id)
    }

    /// Stores `val`, a value of the shape `schema`, under `id`. A node that
    /// is there keeps all but its value and shape; where there is none, one
    /// is made.
    pub fn insert(&mut self, id: u32, schema: Schema, val: Value)
        ensures
            final(self)@ == (ContextView {
                nodes: if old(self)@.nodes.contains_key(id) {
                    old(self)@.nodes.insert(
                        id,
                        NodeView { schema: schema@, value: val@, ..old(self)@.nodes[id] },
                    )
                } else {
                    old(self)@.nodes.insert(id, fresh_node(id, old(self)@.role, schema@, val@))
                },
                ..old(self)@
            }),
    {
        let known = self.contents.contains_key(&id);
        self.contents.insert(id, Content { schema, val });
        if !known {
            self.books.insert(
                id,
                Book { role: self.role, refs: Vec::new(), conns: Vec::new(), root: None, changed: false },
            );
            assert(Seq::<u32>::empty().to_set() =~= Set::<u32>::empty());
            assert(Seq::<usize>::empty().to_set() =~= Set::<usize>::empty());
            assert(self@.nodes =~= old(self)@.nodes.insert(
                id,
                fresh_node(id, old(self)@.role, schema@, val@),
            ));
        } else {
            assert(self@.nodes =~= old(self)@.nodes.insert(
                id,
                NodeView { schema: schema@, value: val@, ..old(self)@.nodes[id] },
            ));
        }
    }

    /// Forgets the node with the given id.
    pub fn gc(&mut self, id: u32)
        ensures
            final(self)@ == (ContextView { nodes: old(self)@.nodes.remove(id), ..old(self)@ }),
    {
        let _ = self.contents.remove(&id);
        let _ = self.books.remove(&id);
        assert(self@.nodes =~= old(self)@.nodes.remove(id));
    }

    /// Makes a node for `val`, a value of the shape `schema`, under the next
    /// id, and says which id that was. The id is above 0 and not in use: a
    /// context in which it is in use already is not one to make nodes in.
    pub fn create(&mut self, schema: Schema, val: Value) -> (id: u32)
        requires
            old(self)@.next < u32::MAX,
            !old(self)@.nodes.contains_key(old(self)@.next),
        ensures
            id == old(self)@.next,
            id > 0,
            !old(self)@.nodes.contains_key(id),
            final(self)@ == (ContextView {
                nodes: old(self)@.nodes.insert(
                    id,
                    fresh_node(id, old(self)@.role, schema@, val@),
                ),
                next: (id + 1) as u32,
                ..old(self)@
            }),
    {
        let id = self.next.get();
        self.contents.insert(id, Content { schema, val });
        self.books.insert(
            id,
            Book { role: self.role, refs: Vec::new(), conns: Vec::new(), root: None, changed: false },
        );
        self.next.step();
        assert(Seq::<u32>::empty().to_set() =~= Set::<u32>::empty());
        assert(Seq::<usize>::empty().to_set() =~= Set::<usize>::empty());
        assert(self@.nodes =~= old(self)@.nodes.insert(
            id,
            fresh_node(id, old(self)@.role, schema@, val@),
        ));
        id
    }
}

/// The nodes after a walk over what the value of the node `id` refers to.
pub open spec fn below(g: Graph, pass: Pass, id: u32) -> Graph {
    if g.contains_key(id) {
        walked(g, pass, g[id].schema, g[id].value)
    } else {
        g
    }
}

/// The nodes after the values that the node `id` refers to have got the
/// node for a parent, and so on for the values of those nodes, and the
/// connections of all of them have been worked out anew.
pub open spec fn adopted(g: Graph, id: u32) -> Graph {
    below(below(g, Pass::Adopt(id), id), Pass::Refresh, id)
}

/// The nodes after the values that the node `id` refers to have lost the
/// node as a parent, and the connections of all that the value refers to
/// have been worked out anew.
pub open spec fn released(g: Graph, id: u32) -> Graph {
    below(below(g, Pass::Release(id), id), Pass::Refresh, id)
}

/// The nodes after a walk that comes to the node `id` and goes on from
/// there.
pub open spec fn from_node(g: Graph, pass: Pass, id: u32) -> Graph {
    if g.contains_key(id) {
        walked(g, pass, SchemaView::Node(Box::new(g[id].schema)), ValueView::Node(id))
    } else {
        g
    }
}

/// Whether `envs` hold the packet `packet` once for each of the connections
/// `conns`, and nothing else.
pub open spec fn fanned(envs: Seq<EnvelopeView>, conns: Set<usize>, packet: PacketView) -> bool {
    &&& forall|i: int| 0 <= i < envs.len() ==> (#[trigger] envs[i]).packet == packet
    &&& forall|i: int| 0 <= i < envs.len() ==> conns.contains((#[trigger] envs[i]).conn)
    &&& forall|c: usize|
        conns.contains(c) ==> exists|i: int| 0 <= i < envs.len() && (#[trigger] envs[i]).conn == c
    &&& forall|i: int, j: int|
        0 <= i < j < envs.len() ==> (#[trigger] envs[i]).conn != (#[trigger] envs[j]).conn
}

/// A node taken out of its context so that its value can be changed. While
/// it is out, the context does not hold the node.
#[derive(Debug)]
pub struct BorrowMut {
    id: u32,
    x: Content,
    book: Book,
}

impl View for BorrowMut {
    type V = NodeView;

    closed spec fn view(&self) -> NodeView {
        node_view(self.id, self.x, self.book)
    }
}

impl BorrowMut {
    /// The id of the node.
    pub fn id(&self) -> (id: u32)
        ensures
            id == self@.id,
    {
        self.id
    }

    /// The shape of the node's value.
    pub fn schema(&self) -> (s: &Schema)
        ensures
            s@ == self@.schema,
    {
        &self.x.schema
    }

    /// The node's value.
    pub fn value(&self) -> (v: &Value)
        ensures
            v@ == self@.value,
    {
        &self.x.val
    }

    /// Gives the node the value `val`.
    pub fn set(&mut self, val: Value)
        ensures
            final(self)@ == (NodeView { value: val@, ..old(self)@ }),
    {
        self.x.val = val;
    }

    /// The node's value, to be changed in place.
    pub fn value_mut(&mut self) -> (v: &mut Value)
        ensures
            (*v)@ == old(self)@.value,
            final(self)@ == (NodeView { value: (*final(v))@, ..old(self)@ }),
    {
        &mut self.x.val
    }
}

/// The value of a node, for reading.
pub struct Borrow<'a> {
    /// The value and its shape.
    pub x: &'a Content,
}

impl NodeContext {
    /// Makes the node `id` the root of the connection `conn`, which then
    /// hears of the node.
    pub fn set_root(&mut self, id: u32, conn: usize)
        ensures
            final(self)@ == (ContextView {
                nodes: if old(self)@.nodes.contains_key(id) {
                    old(self)@.nodes.insert(
                        id,
                        NodeView {
                            root: Some(conn),
                            conns: old(self)@.nodes[id].conns.insert(conn),
                            ..old(self)@.nodes[id]
                        },
                    )
                } else {
                    old(self)@.nodes
                },
                ..old(self)@
            }),
    {
        let ghost g = self@.nodes;
        if self.contents.contains_key(&id) {
            let mut book = match self.books.remove(&id) {
                Some(book) => book,
                None => {
                    assert(Seq::<u32>::empty().to_set() =~= Set::<u32>::empty());
                    assert(Seq::<usize>::empty().to_set() =~= Set::<usize>::empty());
                    Book {
                        role: self.role,
                        refs: Vec::new(),
                        conns: Vec::new(),
                        root: None,
                        changed: false,
                    }
                },
            };
            book.root = Some(conn);
            crate::idset::add_conn(&mut book.conns, conn);
            self.books.insert(id, book);
            assert(self@.nodes =~= g.insert(
                id,
                NodeView { root: Some(conn), conns: g[id].conns.insert(conn), ..g[id] },
            ));
        }
    }

    /// Works out anew the connections of the node `id` and of every node
    /// that its value refers to, directly or through other nodes.
    pub fn refresh(&mut self, id: u32)
        ensures
            final(self)@ == (ContextView {
                nodes: from_node(old(self)@.nodes, Pass::Refresh, id),
                ..old(self)@
            }),
    {
        let role = self.role;
        let contents = &self.contents;
        match contents.get(&id) {
            Some(c) => {
                walk_node(contents, &mut self.books, role, Pass::Refresh, &c.schema, id);
            },
            None => {},
        }
    }

    /// Records that the value of `parent` refers to `child`: the child hears
    /// what the parent passes on, and so does what the child's value refers
    /// to.
    pub fn add_ref(&mut self, child: u32, parent: u32)
        ensures
            final(self)@ == (ContextView {
                nodes: from_node(with_parent(old(self)@.nodes, child, parent), Pass::Refresh, child),
                ..old(self)@
            }),
    {
        let role = self.role;
        let contents = &self.contents;
        match contents.get(&child) {
            Some(c) => {
                link(contents, &mut self.books, role, child, parent);
                walk_node(contents, &mut self.books, role, Pass::Refresh, &c.schema, child);
            },
            None => {},
        }
    }

    /// Records that the value of `parent` no longer refers to `child`: the
    /// child's connections are worked out anew from the parents that are
    /// left, and so are those of what the child's value refers to.
    pub fn remove_ref(&mut self, child: u32, parent: u32)
        ensures
            final(self)@ == (ContextView {
                nodes: from_node(
                    without_parent(old(self)@.nodes, child, parent),
                    Pass::Refresh,
                    child,
                ),
                ..old(self)@
            }),
    {
        let role = self.role;
        let contents = &self.contents;
        match contents.get(&child) {
            Some(c) => {
                unlink(contents, &mut self.books, role, child, parent);
                walk_node(contents, &mut self.books, role, Pass::Refresh, &c.schema, child);
            },
            None => {},
        }
    }

    /// Walks over `val`, a value of the shape `schema`, and does to the
    /// nodes that it refers to what `pass` says.
    pub fn walk_over(&mut self, pass: Pass, schema: &Schema, val: &Value)
        ensures
            final(self)@ == (ContextView {
                nodes: walked(old(self)@.nodes, pass, schema@, val@),
                ..old(self)@
            }),
    {
        let role = self.role;
        walk(&self.contents, &mut self.books, role, pass, schema, val);
    }

    /// Records the node `cur`, if there is one, as the parent of every node
    /// that `val` refers to, and so on for the values of those nodes; their
    /// connections are worked out anew.
    pub fn take_in(&mut self, cur: Option<u32>, schema: &Schema, val: &Value)
        ensures
            final(self)@ == (ContextView {
                nodes: taken_in(old(self)@.nodes, cur, schema@, val@),
                ..old(self)@
            }),
    {
        match cur {
            Some(p) => {
                self.walk_over(Pass::Adopt(p), schema, val);
                self.walk_over(Pass::Refresh, schema, val);
            },
            None => {},
        }
    }

    /// Gives every node that the value of the node `id` refers to that node
    /// for a parent, and so on for the values of those nodes.
    pub fn adopt(&mut self, id: u32)
        ensures
            final(self)@ == (ContextView {
                nodes: adopted(old(self)@.nodes, id),
                ..old(self)@
            }),
    {
        let role = self.role;
        let contents = &self.contents;
        match contents.get(&id) {
            Some(c) => {
                walk(contents, &mut self.books, role, Pass::Adopt(id), &c.schema, &c.val);
                walk(contents, &mut self.books, role, Pass::Refresh, &c.schema, &c.val);
            },
            None => {},
        }
    }

    /// Takes the node `id` as a parent from every node that its value
    /// refers to.
    pub fn release(&mut self, id: u32)
        ensures
            final(self)@ == (ContextView {
                nodes: released(old(self)@.nodes, id),
                ..old(self)@
            }),
    {
        let role = self.role;
        let contents = &self.contents;
        match contents.get(&id) {
            Some(c) => {
                walk(contents, &mut self.books, role, Pass::Release(id), &c.schema, &c.val);
                walk(contents, &mut self.books, role, Pass::Refresh, &c.schema, &c.val);
            },
            None => {},
        }
    }

    /// The value of the node `id`, for reading.
    pub fn borrow(&self, id: u32) -> (r: Option<Borrow<'_>>)
        ensures
            match r {
                Some(b) => self@.nodes.contains_key(id) && self@.nodes[id].schema == b.x.schema@
                    && self@.nodes[id].value == b.x.val@,
                None => !self@.nodes.contains_key(id),
            },
    {
        match self.contents.get(&id) {
            Some(c) => Some(Borrow { x: c }),
            None => None,
        }
    }

    /// Takes the node `id` out of the context so that its value can be
    /// changed. The nodes that the value refers to lose the node as a
    /// parent first; they get it back when the node is put back.
    pub fn lock(&mut self, id: u32) -> (r: Option<BorrowMut>)
        ensures
            match r {
                Some(b) => old(self)@.nodes.contains_key(id) && b@.id == id && released(old(self)@.nodes, id).contains_key(id) && b@ == released(old(self)@.nodes, id)[id] && final(self)@ == (ContextView {
                    nodes: released(old(self)@.nodes, id).remove(id),
                    ..old(self)@
                }),
                None => !old(self)@.nodes.contains_key(id) && final(self)@ == old(self)@,
            },
    {
        let role = self.role;
        let contents = &self.contents;
        match contents.get(&id) {
            Some(c) => {
                walk(contents, &mut self.books, role, Pass::Release(id), &c.schema, &c.val);
                walk(contents, &mut self.books, role, Pass::Refresh, &c.schema, &c.val);
            },
            None => {
                return None;
            },
        }
        let ghost g1 = self@.nodes;
        assert(g1.contains_key(id));
        let x = self.contents.remove(&id).unwrap();
        let book = match self.books.remove(&id) {
            Some(book) => book,
            None => {
                assert(Seq::<u32>::empty().to_set() =~= Set::<u32>::empty());
                assert(Seq::<usize>::empty().to_set() =~= Set::<usize>::empty());
                Book { role: self.role, refs: Vec::new(), conns: Vec::new(), root: None, changed: false }
            },
        };
        assert(self@.nodes =~= g1.remove(id));
        Some(BorrowMut { id, x, book })
    }

    /// Puts back a node that was taken out, with its value as it is now. The
    /// nodes that the value refers to get the node for a parent.
    pub fn unlock(&mut self, b: BorrowMut)
        ensures
            final(self)@ == (ContextView {
                nodes: adopted(old(self)@.nodes.insert(b@.id, b@), b@.id),
                ..old(self)@
            }),
    {
        let ghost g = self@.nodes;
        let id = b.id;
        self.contents.insert(id, b.x);
        self.books.insert(id, b.book);
        assert(self@.nodes =~= g.insert(id, b@));
        self.adopt(id);
    }

    /// Puts a packet for the node `id` with the payload `data` into the
    /// outbox, once for each connection that hears of the node.
    pub fn send(&mut self, id: u32, data: &Vec<u8>)
        ensures
            final(self)@.role == old(self)@.role,
            final(self)@.nodes == old(self)@.nodes,
            final(self)@.next == old(self)@.next,
            final(self)@.outbox.len() >= old(self)@.outbox.len(),
            final(self)@.outbox.take(old(self)@.outbox.len() as int) == old(self)@.outbox,
            fanned(
                final(self)@.outbox.skip(old(self)@.outbox.len() as int),
                if old(self)@.nodes.contains_key(id) {
                    old(self)@.nodes[id].conns
                } else {
                    Set::empty()
                },
                PacketView { node: id, magic: PACKET_MAGIC, data: data@ },
            ),
    {
        let ghost before = self@.outbox;
        let ghost packet = PacketView { node: id, magic: PACKET_MAGIC, data: data@ };
        let mut to: Vec<usize> = Vec::new();
        assert(to@.to_set() =~= Set::<usize>::empty());
        if self.contents.contains_key(&id) {
            match self.books.get(&id) {
                Some(book) => {
                    add_conns(&mut to, &book.conns);
                    assert(to@.to_set() =~= self@.nodes[id].conns);
                },
                None => {},
            }
        }
        let ghost conns = to@.to_set();
        let mut i: usize = 0;
        assert(self@.outbox.take(before.len() as int) =~= before);
        while i < to.len()
            invariant
                i <= to.len(),
                to@.no_duplicates(),
                self@.role == old(self)@.role,
                self@.nodes == old(self)@.nodes,
                self@.next == old(self)@.next,
                before == old(self)@.outbox,
                self@.outbox.len() == before.len() + i,
                self@.outbox.take(before.len() as int) == before,
                forall|k: int|
                    0 <= k < i ==> (#[trigger] self@.outbox[before.len() + k]) == (EnvelopeView {
                        conn: to@[k],
                        packet,
                    }),
                packet == (PacketView { node: id, magic: PACKET_MAGIC, data: data@ }),
            decreases to.len() - i,
        {
            let ghost so_far = self@.outbox;
            let env = Envelope { conn: to[i], packet: Packet::new(id, slice_to_vec(data.as_slice())) };
            self.outbox.push(env);
            assert(self@.outbox =~= so_far.push(EnvelopeView { conn: to@[i as int], packet }));
            assert(self@.outbox.take(before.len() as int) =~= before);
            i = i + 1;
        }
        proof {
            let envs = self@.outbox.skip(before.len() as int);
            assert forall|k: int| 0 <= k < envs.len() implies (#[trigger] envs[k]) == (
            EnvelopeView { conn: to@[k], packet }) by {
                assert(envs[k] == self@.outbox[before.len() + k]);
            }
            assert forall|c: usize| conns.contains(c) implies exists|k: int|
                0 <= k < envs.len() && (#[trigger] envs[k]).conn == c by {
                let k = choose|k: int| 0 <= k < to@.len() && to@[k] == c;
                assert(envs[k].conn == c);
            }
            assert forall|k: int| 0 <= k < envs.len() implies conns.contains(
                (#[trigger] envs[k]).conn,
            ) by {
                assert(to@.contains(to@[k]));
            }
        }
    }

    /// Takes the packets that wait to be sent.
    pub fn take_outbox(&mut self) -> (out: Vec<Envelope>)
        ensures
            envelopes_view(out@) == old(self)@.outbox,
            final(self)@ == (ContextView { outbox: Seq::empty(), ..old(self)@ }),
    {
        let mut out: Vec<Envelope> = Vec::new();
        core::mem::swap(&mut out, &mut self.outbox);
        assert(self@.outbox =~= Seq::<EnvelopeView>::empty());
        out
    }

    /// Whether an update was applied to the node `id` since this was last
    /// asked; the answer is then forgotten.
    pub fn changed(&mut self, id: u32) -> (r: bool)
        ensures
            r == (old(self)@.nodes.contains_key(id) && old(self)@.nodes[id].changed),
            final(self)@ == (ContextView {
                nodes: if old(self)@.nodes.contains_key(id) {
                    old(self)@.nodes.insert(
                        id,
                        NodeView { changed: false, ..old(self)@.nodes[id] },
                    )
                } else {
                    old(self)@.nodes
                },
                ..old(self)@
            }),
    {
        let ghost g = self@.nodes;
        if self.contents.contains_key(&id) {
            match self.books.remove(&id) {
                Some(book) => {
                    let was = book.changed;
                    self.books.insert(id, Book { changed: false, ..book });
                    assert(self@.nodes =~= g.insert(id, NodeView { changed: false, ..g[id] }));
                    was
                },
                None => {
                    assert(self@.nodes =~= g.insert(id, NodeView { changed: false, ..g[id] }));
                    false
                },
            }
        } else {
            false
        }
    }
}


/// What a change to a member of the node `id` does on the server: the nodes
/// afterwards, and the update that goes out. The nodes that the node's value
/// referred to lose the node as a parent, the change is written and made,
/// and the nodes that the value then refers to get the node for a parent.
/// While the change is written the node itself is out of the context, so
/// that a value which refers to its own node is refused.
pub open spec fn member_update(
    c: ContextView,
    id: u32,
    op: UpdateOp,
    tag: Seq<char>,
    key: Option<ValueView>,
    val: Option<ValueView>,
) -> Result<(Graph, Seq<u8>), Fault> {
    if encode_utf8(tag).len() > u32::MAX || !c.nodes.contains_key(id) {
        Err(Fault::Violation)
    } else {
        let g1 = released(c.nodes, id);
        match sent_update(g1.remove(id), g1[id].schema, g1[id].value, op, tag, key, val) {
            Err(f) => Err(f),
            Ok((payload, after)) => Ok(
                (
                    adopted(g1.insert(id, NodeView { value: after, ..g1[id] }), id),
                    update_header(op, tag) + payload,
                ),
            ),
        }
    }
}

/// The nodes after a change to a member of the node `id` has been refused:
/// as they were where the tag is too long for its count or the node is not
/// there; else with the node's value as it was, after the node has released
/// what the value refers to and has adopted it again.
pub open spec fn member_refused(c: ContextView, id: u32, tag: Seq<char>) -> Graph {
    if encode_utf8(tag).len() > u32::MAX || !c.nodes.contains_key(id) {
        c.nodes
    } else {
        adopted(released(c.nodes, id), id)
    }
}

/// What an update that has arrived for the node `id` does on a client: the
/// nodes afterwards. The node is marked as changed, and is the parent of
/// every node that its value then refers to.
pub open spec fn member_applied(c: ContextView, id: u32, bytes: Seq<u8>) -> Result<Graph, Fault> {
    if !c.nodes.contains_key(id) {
        Err(Fault::Violation)
    } else {
        let g1 = released(c.nodes, id);
        match received(g1.remove(id), c.role, g1[id].schema, g1[id].value, id, bytes) {
            Err(f) => Err(f),
            Ok((g2, after)) => Ok(
                adopted(g2.insert(id, NodeView { value: after, changed: true, ..g1[id] }), id),
            ),
        }
    }
}

/// Whether the node `id` has after a refused update the shape and the value
/// that it had: the update was not applied to it. Where the node was not
/// there, nothing has changed.
pub open spec fn value_kept(before: Graph, after: Graph, id: u32) -> bool {
    if before.contains_key(id) {
        after.contains_key(id) && after[id].schema == before[id].schema && after[id].value
            == before[id].value
    } else {
        after == before
    }
}

/// How many of `bytes` a client reads for an update for the node `id`.
pub open spec fn member_used(c: ContextView, id: u32, bytes: Seq<u8>) -> int {
    let g1 = released(c.nodes, id);
    message_used(g1.remove(id), c.role, g1[id].schema, g1[id].value, bytes)
}

impl NodeContext {
    /// Makes a change to a member of the node `id`, and puts the update for
    /// the clients into the outbox, once for each connection that hears of
    /// the node.
    pub fn update_member(
        &mut self,
        id: u32,
        op: UpdateOp,
        tag: &String,
        key: Option<Value>,
        item: Option<Value>,
    ) -> (r: Result<(), Error>)
        ensures
            final(self)@.role == old(self)@.role,
            final(self)@.next == old(self)@.next,
            final(self)@.outbox.len() >= old(self)@.outbox.len(),
            final(self)@.outbox.take(old(self)@.outbox.len() as int) == old(self)@.outbox,
            match member_update(old(self)@, id, op, tag@, maybe_view(key), maybe_view(item)) {
                Ok((nodes, message)) => r is Ok && final(self)@.nodes == nodes && fanned(
                    final(self)@.outbox.skip(old(self)@.outbox.len() as int),
                    if nodes.contains_key(id) {
                        nodes[id].conns
                    } else {
                        Set::empty()
                    },
                    PacketView { node: id, magic: PACKET_MAGIC, data: message },
                ),
                Err(f) => r is Err && r->Err_0.fault() == f && final(self)@.outbox == old(self)@.outbox && final(self)@.nodes == member_refused(old(self)@, id, tag@),
            },
    {
        let ghost before = self@.outbox;
        assert(before.take(before.len() as int) =~= before);
        let mut out: Vec<u8> = Vec::new();
        match write_header(&mut out, op, tag) {
            Err(e) => {
                return Err(e);
            },
            Ok(()) => {},
        }
        assert(out@ =~= update_header(op, tag@));
        let mut b = match self.lock(id) {
            Some(b) => b,
            None => {
                return Err(Error::custom("a change for a node that is not there"));
            },
        };
        let ghost g1 = released(old(self)@.nodes, id);
        let ghost b0 = b@;
        let ghost inside = self@.nodes;
        assert(b0 == g1[id]);
        assert(inside == g1.remove(id));
        assert(b0.id == id);
        let ghost sent = sent_update(
            inside,
            b0.schema,
            b0.value,
            op,
            tag@,
            maybe_view(key),
            maybe_view(item),
        );
        let r = send_update(&mut out, &*self, &b.x.schema, &mut b.x.val, op, tag, key, item);
        assert(r is Ok <==> sent is Ok);
        assert(b@ == (NodeView { value: b@.value, ..b0 }));
        assert(inside.insert(id, b@) =~= g1.insert(id, b@));
        assert(r is Err ==> g1.insert(id, b@) =~= g1);
        self.unlock(b);
        match r {
            Err(e) => Err(e),
            Ok(_) => {
                assert(out@ =~= update_header(op, tag@) + sent->Ok_0.0);
                self.send(id, &out);
                Ok(())
            },
        }
    }

    /// Makes the change that an update for the node `id` asks for, and marks
    /// the node as changed. An update that is refused is not applied: the
    /// node keeps its value.
    pub fn receive_update(&mut self, id: u32, msg: &mut Cursor) -> (r: Result<(), Error>)
        ensures
            final(msg).bytes() == old(msg).bytes(),
            final(self)@.role == old(self)@.role,
            final(self)@.next == old(self)@.next,
            final(self)@.outbox == old(self)@.outbox,
            match member_applied(old(self)@, id, old(msg).remaining()) {
                Ok(nodes) => r is Ok && final(self)@.nodes == nodes && final(msg).remaining() == old(
                    msg,
                ).remaining().skip(member_used(old(self)@, id, old(msg).remaining())),
                Err(f) => r is Err && r->Err_0.fault() == f && value_kept(
                    old(self)@.nodes,
                    final(self)@.nodes,
                    id,
                ),
            },
    {
        let mut b = match self.lock(id) {
            Some(b) => b,
            None => {
                return Err(Error::custom("an update for a node that is not there"));
            },
        };
        let ghost g1 = released(old(self)@.nodes, id);
        let ghost b0 = b@;
        let ghost inside = self@.nodes;
        assert(b0 == g1[id]);
        assert(inside == g1.remove(id));
        assert(b0.id == id);
        let ghost got = received(inside, self@.role, b0.schema, b0.value, id, msg.remaining());
        let r = b.x.val.call_upd(self, &b.x.schema, id, msg);
        assert(r is Ok <==> got is Ok);
        if r.is_ok() {
            b.book.changed = true;
            assert(b@ == (NodeView { value: got->Ok_0.1, changed: true, ..b0 }));
        }
        proof {
            crate::upkeep::lemma_below_same(old(self)@.nodes, id);
            crate::upkeep::lemma_below_same(self@.nodes.insert(id, b@), id);
        }
        self.unlock(b);
        r
    }
}

/// A handle on a node of a context.
#[derive(Clone, Copy, Debug, PartialEq, Eq, Structural)]
pub struct Node {
    /// The id of the node; 0 while none is assigned.
    pub id: u32,
    /// The id of the node whose value holds this handle, once it is known:
    /// `held_by` sets it, and `let_go` takes the node from that parent.
    pub owner: Option<u32>,
}

impl Default for Node {
    fn default() -> (n: Node)
        ensures
            n.id == 0,
            n.owner is None,
    {
        Node { id: 0, owner: None }
    }
}

/// What all handles on nodes can do, whatever their values are.
pub trait NodeBase: Sized {
    /// The id of the node.
    fn id(&self) -> u32;

    /// Puts a packet for the node with the payload `msg` into the outbox of
    /// `ctx`, once for each connection that hears of the node.
    fn send(&self, ctx: &mut NodeContext, msg: &Vec<u8>);

    /// Makes the change that the update `msg` asks for.
    fn recv_update(&self, ctx: &mut NodeContext, msg: &mut Cursor) -> Result<(), Error>;

    /// Records that the value of `parent` refers to the node.
    fn add_ref(&self, ctx: &mut NodeContext, parent: u32);

    /// Records that the value of `parent` no longer refers to the node.
    fn remove_ref(&self, ctx: &mut NodeContext, parent: u32);

    /// Adds to `target` the connections that the node passes on.
    fn add_connections(&self, ctx: &NodeContext, target: &mut Vec<usize>);
}

/// How nodes are made.
pub trait NewNode: Sized {
    /// Stores `val`, a value of the shape `schema`, under `id` in `ctx`, and
    /// hands back a handle on the node.
    fn new(id: u32, schema: Schema, val: Value, ctx: &mut NodeContext) -> Self;

    /// Makes the node the root of the connection `conn`.
    fn set_root(&self, ctx: &mut NodeContext, conn: usize);
}

/// The connections that the node `id` passes on.
pub open spec fn passed_on(c: ContextView, id: u32) -> Set<usize> {
    crate::links::lent(c.nodes, id)
}

impl NodeBase for Node {
    fn id(&self) -> (id: u32)
        ensures
            id == self.id,
    {
        self.id
    }

    fn send(&self, ctx: &mut NodeContext, msg: &Vec<u8>)
        ensures
            final(ctx)@.role == old(ctx)@.role,
            final(ctx)@.nodes == old(ctx)@.nodes,
            final(ctx)@.next == old(ctx)@.next,
            final(ctx)@.outbox.len() >= old(ctx)@.outbox.len(),
            final(ctx)@.outbox.take(old(ctx)@.outbox.len() as int) == old(ctx)@.outbox,
            fanned(
                final(ctx)@.outbox.skip(old(ctx)@.outbox.len() as int),
                if old(ctx)@.nodes.contains_key(self.id) {
                    old(ctx)@.nodes[self.id].conns
                } else {
                    Set::empty()
                },
                PacketView { node: self.id, magic: PACKET_MAGIC, data: msg@ },
            ),
    {
        ctx.send(self.id, msg)
    }

    fn recv_update(&self, ctx: &mut NodeContext, msg: &mut Cursor) -> (r: Result<(), Error>)
        ensures
            final(msg).bytes() == old(msg).bytes(),
            final(ctx)@.role == old(ctx)@.role,
            final(ctx)@.next == old(ctx)@.next,
            final(ctx)@.outbox == old(ctx)@.outbox,
            match member_applied(old(ctx)@, self.id, old(msg).remaining()) {
                Ok(nodes) => r is Ok && final(ctx)@.nodes == nodes && final(msg).remaining() == old(
                    msg,
                ).remaining().skip(member_used(old(ctx)@, self.id, old(msg).remaining())),
                Err(f) => r is Err && r->Err_0.fault() == f && value_kept(
                    old(ctx)@.nodes,
                    final(ctx)@.nodes,
                    self.id,
                ),
            },
    {
        ctx.receive_update(self.id, msg)
    }

    fn add_ref(&self, ctx: &mut NodeContext, parent: u32)
        ensures
            final(ctx)@ == (ContextView {
                nodes: from_node(with_parent(old(ctx)@.nodes, self.id, parent), Pass::Refresh, self.id),
                ..old(ctx)@
            }),
    {
        ctx.add_ref(self.id, parent)
    }

    fn remove_ref(&self, ctx: &mut NodeContext, parent: u32)
        ensures
            final(ctx)@ == (ContextView {
                nodes: from_node(
                    without_parent(old(ctx)@.nodes, self.id, parent),
                    Pass::Refresh,
                    self.id,
                ),
                ..old(ctx)@
            }),
    {
        ctx.remove_ref(self.id, parent)
    }

    fn add_connections(&self, ctx: &NodeContext, target: &mut Vec<usize>)
        ensures
            final(target)@.to_set() == old(target)@.to_set().union(passed_on(ctx@, self.id)),
    {
        ctx.lend(self.id, target)
    }
}

impl NodeContext {
    /// Adds to `target` the connections that the node `id` passes on.
    pub fn lend(&self, id: u32, target: &mut Vec<usize>)
        ensures
            final(target)@.to_set() == old(target)@.to_set().union(passed_on(self@, id)),
    {
        crate::links::lend(&self.contents, &self.books, self.role, id, target)
    }
}

impl NewNode for Node {
    fn new(id: u32, schema: Schema, val: Value, ctx: &mut NodeContext) -> (n: Node)
        ensures
            n.id == id,
            n.owner is None,
            final(ctx)@ == (ContextView {
                nodes: if old(ctx)@.nodes.contains_key(id) {
                    old(ctx)@.nodes.insert(
                        id,
                        NodeView { schema: schema@, value: val@, ..old(ctx)@.nodes[id] },
                    )
                } else {
                    old(ctx)@.nodes.insert(id, fresh_node(id, old(ctx)@.role, schema@, val@))
                },
                ..old(ctx)@
            }),
    {
        ctx.insert(id, schema, val);
        Node { id, owner: None }
    }

    fn set_root(&self, ctx: &mut NodeContext, conn: usize)
        ensures
            final(ctx)@ == (ContextView {
                nodes: if old(ctx)@.nodes.contains_key(self.id) {
                    old(ctx)@.nodes.insert(
                        self.id,
                        NodeView {
                            root: Some(conn),
                            conns: old(ctx)@.nodes[self.id].conns.insert(conn),
                            ..old(ctx)@.nodes[self.id]
                        },
                    )
                } else {
                    old(ctx)@.nodes
                },
                ..old(ctx)@
            }),
    {
        ctx.set_root(self.id, conn)
    }
}

impl Node {
    /// Whether an update was applied to the node since this was last asked;
    /// the answer is then forgotten.
    pub fn changed(&self, ctx: &mut NodeContext) -> (r: bool)
        ensures
            r == (old(ctx)@.nodes.contains_key(self.id) && old(ctx)@.nodes[self.id].changed),
            final(ctx)@ == (ContextView {
                nodes: if old(ctx)@.nodes.contains_key(self.id) {
                    old(ctx)@.nodes.insert(
                        self.id,
                        NodeView { changed: false, ..old(ctx)@.nodes[self.id] },
                    )
                } else {
                    old(ctx)@.nodes
                },
                ..old(ctx)@
            }),
    {
        ctx.changed(self.id)
    }

    /// The node's value, for reading; none where the context does not hold
    /// the node.
    pub fn as_ref<'a>(&self, ctx: &'a NodeContext) -> (r: Option<Borrow<'a>>)
        ensures
            match r {
                Some(b) => ctx@.nodes.contains_key(self.id) && ctx@.nodes[self.id].schema
                    == b.x.schema@ && ctx@.nodes[self.id].value == b.x.val@,
                None => !ctx@.nodes.contains_key(self.id),
            },
    {
        ctx.borrow(self.id)
    }

    /// Takes the node out of the context so that its value can be changed;
    /// `NodeContext::unlock` puts it back.
    pub fn as_mut(&self, ctx: &mut NodeContext) -> (r: Option<BorrowMut>)
        ensures
            match r {
                Some(b) => old(ctx)@.nodes.contains_key(self.id) && b@.id == self.id && released(old(ctx)@.nodes, self.id).contains_key(self.id) && b@ == released(old(ctx)@.nodes, self.id)[self.id] && final(ctx)@ == (ContextView {
                    nodes: released(old(ctx)@.nodes, self.id).remove(self.id),
                    ..old(ctx)@
                }),
                None => !old(ctx)@.nodes.contains_key(self.id) && final(ctx)@ == old(ctx)@,
            },
    {
        ctx.lock(self.id)
    }

    /// The handle as one for the side that `X` marks. The node has to live
    /// on that side.
    pub fn convert<X: Tag>(self, ctx: &NodeContext) -> (n: Node)
        requires
            X::spec_role() == ctx@.role,
        ensures
            n == self,
    {
        self
    }

    /// Makes a node for `content`, a value of the shape `schema`, in the
    /// context of this node's server.
    pub fn make_node(&self, ctx: &mut NodeContext, schema: Schema, content: Value) -> (n: Node)
        requires
            old(ctx)@.role == Role::Server,
            old(ctx)@.next < u32::MAX,
            !old(ctx)@.nodes.contains_key(old(ctx)@.next),
        ensures
            n.id == old(ctx)@.next,
            n.id > 0,
            !old(ctx)@.nodes.contains_key(n.id),
            n.owner is None,
            final(ctx)@ == (ContextView {
                nodes: old(ctx)@.nodes.insert(
                    n.id,
                    fresh_node(n.id, old(ctx)@.role, schema@, content@),
                ),
                next: (n.id + 1) as u32,
                ..old(ctx)@
            }),
    {
        let id = ctx.create(schema, content);
        Node { id, owner: None }
    }
}

/// Whether `after` and `r` are what a change to a member of the node `id`
/// leaves behind on the server that was `before`: the nodes with the change
/// made, and in the outbox one more packet for each connection that hears of
/// the node, with the update for the clients. A change that is refused
/// leaves every value as it was and sends nothing.
pub open spec fn updated(
    before: ContextView,
    after: ContextView,
    id: u32,
    op: UpdateOp,
    tag: Seq<char>,
    key: Option<ValueView>,
    val: Option<ValueView>,
    r: Result<(), Error>,
) -> bool {
    &&& after.role == before.role
    &&& after.next == before.next
    &&& after.outbox.len() >= before.outbox.len()
    &&& after.outbox.take(before.outbox.len() as int) == before.outbox
    &&& match member_update(before, id, op, tag, key, val) {
        Ok((nodes, message)) => r is Ok && after.nodes == nodes && fanned(
            after.outbox.skip(before.outbox.len() as int),
            if nodes.contains_key(id) {
                nodes[id].conns
            } else {
                Set::empty()
            },
            PacketView { node: id, magic: PACKET_MAGIC, data: message },
        ),
        Err(f) => r is Err && r->Err_0.fault() == f && after.outbox == before.outbox && after.nodes
            == member_refused(before, id, tag),
    }
}

impl Node {
    /// The handle as the one that the value of the node `parent` holds: the
    /// parent is recorded with the node and remembered by the handle.
    pub fn held_by(&self, ctx: &mut NodeContext, parent: u32) -> (n: Node)
        ensures
            n == (Node { id: self.id, owner: Some(parent) }),
            final(ctx)@ == (ContextView {
                nodes: from_node(with_parent(old(ctx)@.nodes, self.id, parent), Pass::Refresh, self.id),
                ..old(ctx)@
            }),
    {
        ctx.add_ref(self.id, parent);
        Node { id: self.id, owner: Some(parent) }
    }

    /// Gives the handle up. Where it remembers the node whose value held it,
    /// the node loses that parent, and hears no longer of what only that
    /// parent passed on.
    pub fn let_go(self, ctx: &mut NodeContext)
        ensures
            final(ctx)@ == (ContextView {
                nodes: match self.owner {
                    Some(p) => from_node(
                        without_parent(old(ctx)@.nodes, self.id, p),
                        Pass::Refresh,
                        self.id,
                    ),
                    None => old(ctx)@.nodes,
                },
                ..old(ctx)@
            }),
    {
        match self.owner {
            Some(p) => ctx.remove_ref(self.id, p),
            None => {},
        }
    }

    /// Sends the whole value of the node anew.
    pub fn resync(&self, ctx: &mut NodeContext) -> (r: Result<(), Error>)
        requires
            old(ctx)@.role == Role::Server,
        ensures
            updated(
                old(ctx)@,
                final(ctx)@,
                self.id,
                UpdateOp::Replace,
                Seq::empty(),
                None,
                None,
                r,
            ),
    {
        let tag = String::new();
        ctx.update_member(self.id, UpdateOp::Replace, &tag, None, None)
    }

    /// Sends the member `tag` of the node's value anew.
    pub fn member_modified(&self, ctx: &mut NodeContext, tag: String) -> (r: Result<(), Error>)
        requires
            old(ctx)@.role == Role::Server,
        ensures
            updated(old(ctx)@, final(ctx)@, self.id, UpdateOp::Update, tag@, None, None, r),
    {
        ctx.update_member(self.id, UpdateOp::Update, &tag, None, None)
    }

    /// Adds `val` at the end of the list `tag`, here and on the clients.
    pub fn member_vec_push(&self, ctx: &mut NodeContext, tag: String, val: Value) -> (r: Result<
        (),
        Error,
    >)
        requires
            old(ctx)@.role == Role::Server,
        ensures
            updated(
                old(ctx)@,
                final(ctx)@,
                self.id,
                UpdateOp::VecPush,
                tag@,
                None,
                Some(val@),
                r,
            ),
    {
        ctx.update_member(self.id, UpdateOp::VecPush, &tag, None, Some(val))
    }

    /// Puts `val` into the list `tag` at `index`, here and on the clients.
    /// Of an index beyond 32 bits the low 32 bits count.
    pub fn member_vec_insert(&self, ctx: &mut NodeContext, tag: String, index: usize, val: Value) -> (r:
        Result<(), Error>)
        requires
            old(ctx)@.role == Role::Server,
        ensures
            updated(
                old(ctx)@,
                final(ctx)@,
                self.id,
                UpdateOp::VecInsert,
                tag@,
                Some(ValueView::Scalar(Scalar::U32(count_of(index as nat)))),
                Some(val@),
                r,
            ),
    {
        let key = Value::Scalar(Scalar::U32(count(index)));
        ctx.update_member(self.id, UpdateOp::VecInsert, &tag, Some(key), Some(val))
    }

    /// Takes the item at `index` out of the list `tag`, here and on the
    /// clients. Of an index beyond 32 bits the low 32 bits count.
    pub fn member_vec_remove(&self, ctx: &mut NodeContext, tag: String, index: usize) -> (r: Result<
        (),
        Error,
    >)
        requires
            old(ctx)@.role == Role::Server,
        ensures
            updated(
                old(ctx)@,
                final(ctx)@,
                self.id,
                UpdateOp::VecRemove,
                tag@,
                Some(ValueView::Scalar(Scalar::U32(count_of(index as nat)))),
                None,
                r,
            ),
    {
        let key = Value::Scalar(Scalar::U32(count(index)));
        ctx.update_member(self.id, UpdateOp::VecRemove, &tag, Some(key), None)
    }

    /// Empties the list `tag`, here and on the clients.
    pub fn member_vec_clear(&self, ctx: &mut NodeContext, tag: String) -> (r: Result<(), Error>)
        requires
            old(ctx)@.role == Role::Server,
        ensures
            updated(old(ctx)@, final(ctx)@, self.id, UpdateOp::VecClear, tag@, None, None, r),
    {
        ctx.update_member(self.id, UpdateOp::VecClear, &tag, None, None)
    }

    /// Gives `key` the value `val` in the mapping `tag`, here and on the
    /// clients.
    pub fn member_map_insert(&self, ctx: &mut NodeContext, tag: String, key: Value, val: Value) -> (r:
        Result<(), Error>)
        requires
            old(ctx)@.role == Role::Server,
        ensures
            updated(
                old(ctx)@,
                final(ctx)@,
                self.id,
                UpdateOp::MapInsert,
                tag@,
                Some(key@),
                Some(val@),
                r,
            ),
    {
        ctx.update_member(self.id, UpdateOp::MapInsert, &tag, Some(key), Some(val))
    }

    /// Takes `key` out of the mapping `tag`, here and on the clients.
    pub fn member_map_remove(&self, ctx: &mut NodeContext, tag: String, key: Value) -> (r: Result<
        (),
        Error,
    >)
        requires
            old(ctx)@.role == Role::Server,
        ensures
            updated(
                old(ctx)@,
                final(ctx)@,
                self.id,
                UpdateOp::MapRemove,
                tag@,
                Some(key@),
                None,
                r,
            ),
    {
        ctx.update_member(self.id, UpdateOp::MapRemove, &tag, Some(key), None)
    }

    /// Empties the mapping `tag`, here and on the clients.
    pub fn member_map_clear(&self, ctx: &mut NodeContext, tag: String) -> (r: Result<(), Error>)
        requires
            old(ctx)@.role == Role::Server,
        ensures
            updated(old(ctx)@, final(ctx)@, self.id, UpdateOp::MapClear, tag@, None, None, r),
    {
        ctx.update_member(self.id, UpdateOp::MapClear, &tag, None, None)
    }
}

} // verus!
