//! The two ends of the wire: a server with its clients, and a client.
//!
//! Neither touches a socket. A connection holds the bytes that wait to be
//! written and takes in the bytes that have arrived; moving them to and from
//! the peer is the program's part.

use crate::connection::{Connection, ConnectionView, EnvelopeView, Packet};
use crate::connection::{PacketView, PACKET_MAGIC};
use crate::encode::{Cursor, ToStream};
use crate::node::{adopted, fresh_node, member_applied, value_kept, ContextView, Graph, Node};
use crate::node::NodeContext;
use crate::node::{NodeView, Role, TagClient, TagServer};
use crate::rpc::{call_parse, call_typed, call_wire, procedures_view, read_call, write_call};
use crate::rpc::{Call, CallView, Procedure, ProcedureView};
use crate::value::{values_view, Schema, SchemaView, Value, ValueView};
use crate::visitor::deserializer::{parse, read_value};
use crate::visitor::serializer::{typed, wire, write_value};
use crate::{Error, Fault};
use vstd::prelude::*;

verus! {

/// A client of a server: the connection to it and its root node.
pub struct Peer {
    pub conn: Connection,
    pub root: Node,
}

/// The model of a `Peer`.
pub ghost struct PeerView {
    pub conn: ConnectionView,
    pub root: u32,
}

impl View for Peer {
    type V = PeerView;

    open spec fn view(&self) -> PeerView {
        PeerView { conn: self.conn@, root: self.root.id }
    }
}

/// The models of a row of peers.
pub open spec fn peers_view(peers: Seq<Peer>) -> Seq<PeerView> {
    Seq::new(peers.len(), |i: int| peers[i]@)
}

/// The procedures of the nodes of one shape.
pub struct Table {
    pub schema: Schema,
    pub procedures: Vec<Procedure>,
}

/// The model of a `Table`.
pub ghost struct TableView {
    pub schema: SchemaView,
    pub procedures: Seq<ProcedureView>,
}

impl View for Table {
    type V = TableView;

    open spec fn view(&self) -> TableView {
        TableView { schema: self.schema@, procedures: procedures_view(self.procedures@) }
    }
}

/// The models of a row of tables.
pub open spec fn tables_view(tables: Seq<Table>) -> Seq<TableView> {
    Seq::new(tables.len(), |i: int| tables[i]@)
}

/// The first place among the first `n` of `tables` that holds the
/// procedures of the nodes of the shape `s`, if there is one.
pub open spec fn table_for(tables: Seq<TableView>, s: SchemaView, n: nat) -> Option<int>
    decreases n,
{
    if n == 0 || n > tables.len() {
        None
    } else {
        match table_for(tables, s, (n - 1) as nat) {
            Some(i) => Some(i),
            None => if tables[n - 1].schema == s {
                Some(n - 1)
            } else {
                None
            },
        }
    }
}

/// A table found among the first `n` is found in the same place among the
/// first `m`, for `m` beyond `n`.
pub proof fn lemma_table_stays(tables: Seq<TableView>, s: SchemaView, n: nat, m: nat)
    requires
        n <= m <= tables.len(),
        table_for(tables, s, n) is Some,
    ensures
        table_for(tables, s, m) == table_for(tables, s, n),
    decreases m - n,
{
    if n < m {
        lemma_table_stays(tables, s, n, (m - 1) as nat);
    }
}

/// The place in `tables` of the procedures of the nodes of the shape
/// `schema`.
pub fn find_table(tables: &Vec<Table>, schema: &Schema) -> (r: Option<usize>)
    ensures
        match r {
            Some(i) => table_for(tables_view(tables@), schema@, tables@.len() as nat) == Some(
                i as int,
            ) && i < tables@.len(),
            None => table_for(tables_view(tables@), schema@, tables@.len() as nat) is None,
        },
{
    let ghost t = tables_view(tables@);
    let mut i: usize = 0;
    while i < tables.len()
        invariant
            i <= tables.len(),
            t == tables_view(tables@),
            table_for(t, schema@, i as nat) is None,
        decreases tables.len() - i,
    {
        if tables[i].schema.same(schema) {
            assert(table_for(t, schema@, (i + 1) as nat) == Some(i as int));
            proof {
                lemma_table_stays(t, schema@, (i + 1) as nat, tables@.len() as nat);
            }
            return Some(i);
        }
        i = i + 1;
    }
    None
}

/// The call that the packet `p` asks for: a call on the node that the
/// packet is for, of one of the procedures that nodes of its shape have. A
/// packet for a node that is not there is refused, and so is one for a node
/// of a shape without procedures.
pub open spec fn served_packet(g: Graph, tables: Seq<TableView>, p: PacketView) -> Result<
    CallView,
    Fault,
> {
    if !g.contains_key(p.node) {
        Err(Fault::Violation)
    } else {
        match table_for(tables, g[p.node].schema, tables.len()) {
            None => Err(Fault::Violation),
            Some(t) => match call_parse(tables[t].procedures, p.data) {
                Err(f) => Err(f),
                Ok(r) => Ok(
                    CallView { node: p.node, index: r.index, name: r.name, args: r.args },
                ),
            },
        }
    }
}

/// What serving the packets of one client yields.
pub ghost struct Served {
    /// The calls that the packets ask for, up to the first packet that is
    /// refused.
    pub calls: Seq<CallView>,
    /// The packets after the one that was refused.
    pub left: Seq<PacketView>,
    /// Whether no packet was refused.
    pub ok: bool,
    /// Why the packet that was refused was refused.
    pub why: Option<Fault>,
}

/// What serving the packets `inbox` yields, oldest first.
pub open spec fn served(g: Graph, tables: Seq<TableView>, inbox: Seq<PacketView>) -> Served
    decreases inbox.len(),
{
    if inbox.len() == 0 {
        Served { calls: Seq::empty(), left: Seq::empty(), ok: true, why: None }
    } else {
        match served_packet(g, tables, inbox[0]) {
            Err(f) => Served { calls: Seq::empty(), left: inbox.skip(1), ok: false, why: Some(f) },
            Ok(c) => {
                let rest = served(g, tables, inbox.skip(1));
                Served { calls: seq![c] + rest.calls, ..rest }
            },
        }
    }
}

/// A client after its packets have been served: a client whose packet was
/// refused is dead, and why the packet was refused is on its record.
pub open spec fn peer_served(g: Graph, tables: Seq<TableView>, p: PeerView) -> PeerView {
    let s = served(g, tables, p.conn.inbox);
    PeerView {
        conn: ConnectionView {
            inbox: s.left,
            alive: p.conn.alive && s.ok,
            err: if s.ok {
                p.conn.err
            } else {
                s.why
            },
            ..p.conn
        },
        ..p
    }
}

/// The calls that the packets of the first `n` clients ask for, client by
/// client.
pub open spec fn calls_of(g: Graph, tables: Seq<TableView>, clients: Seq<PeerView>, n: nat) -> Seq<
    CallView,
>
    decreases n,
{
    if n == 0 || n > clients.len() {
        Seq::empty()
    } else {
        calls_of(g, tables, clients, (n - 1) as nat) + served(
            g,
            tables,
            clients[n - 1].conn.inbox,
        ).calls
    }
}

/// Those of the first `n` clients that are alive once their packets have
/// been served, in their order.
pub open spec fn survivors(g: Graph, tables: Seq<TableView>, clients: Seq<PeerView>, n: nat) -> Seq<
    PeerView,
>
    decreases n,
{
    if n == 0 || n > clients.len() {
        Seq::empty()
    } else {
        let before = survivors(g, tables, clients, (n - 1) as nat);
        let p = peer_served(g, tables, clients[n - 1]);
        if p.conn.alive {
            before.push(p)
        } else {
            before
        }
    }
}

/// The models of a row of calls.
pub open spec fn calls_view(calls: Seq<Call>) -> Seq<CallView> {
    Seq::new(calls.len(), |i: int| calls[i]@)
}

/// Serves the packets that have arrived from one client: each call that a
/// packet asks for joins `calls`. A packet that is refused kills the
/// connection.
pub fn serve(peer: &mut Peer, ctx: &NodeContext, tables: &Vec<Table>, calls: &mut Vec<Call>)
    ensures
        final(peer)@ == peer_served(ctx@.nodes, tables_view(tables@), old(peer)@),
        calls_view(final(calls)@) == calls_view(old(calls)@) + served(
            ctx@.nodes,
            tables_view(tables@),
            old(peer)@.conn.inbox,
        ).calls,
{
    let ghost g = ctx@.nodes;
    let ghost t = tables_view(tables@);
    let ghost inbox0 = peer@.conn.inbox;
    let ghost calls0 = calls_view(calls@);
    let ghost conn0 = peer@.conn;
    assert(calls0 + Seq::<CallView>::empty() =~= calls0);
    loop
        invariant_except_break
            peer@.conn == (ConnectionView { inbox: peer@.conn.inbox, ..conn0 }),
            served(g, t, inbox0).ok == served(g, t, peer@.conn.inbox).ok,
            served(g, t, inbox0).why == served(g, t, peer@.conn.inbox).why,
            served(g, t, inbox0).left == served(g, t, peer@.conn.inbox).left,
            calls0 + served(g, t, inbox0).calls == calls_view(calls@) + served(
                g,
                t,
                peer@.conn.inbox,
            ).calls,
        invariant
            g == ctx@.nodes,
            t == tables_view(tables@),
            peer@.root == old(peer)@.root,
            inbox0 == old(peer)@.conn.inbox,
            conn0 == old(peer)@.conn,
            calls0 == calls_view(old(calls)@),
        ensures
            peer@ == peer_served(g, t, old(peer)@),
            calls_view(calls@) == calls0 + served(g, t, inbox0).calls,
        decreases peer@.conn.inbox.len(),
    {
        let ghost before = calls_view(calls@);
        let ghost inbox = peer@.conn.inbox;
        let packet = match peer.conn.recv() {
            Some(p) => p,
            None => {
                assert(before + Seq::<CallView>::empty() =~= before);
                assert(peer@.conn.inbox =~= Seq::<PacketView>::empty());
                assert(peer@.conn == (ConnectionView {
                    inbox: Seq::empty(),
                    alive: conn0.alive && true,
                    err: conn0.err,
                    ..conn0
                }));
                break ;
            },
        };
        let ghost shown = packet@;
        let node = packet.node;
        let r = match ctx.get(node) {
            None => Err(Error::custom("a call on a node that is not there")),
            Some(content) => match find_table(tables, &content.schema) {
                None => Err(Error::custom("requested rpc not found")),
                Some(i) => {
                    assert(t[i as int].procedures == procedures_view(tables@[i as int].procedures@));
                    let mut cur = Cursor::new(packet.data);
                    read_call(&mut cur, &tables[i].procedures, node)
                },
            },
        };
        match r {
            Ok(call) => {
                let ghost c = call@;
                calls.push(call);
                assert(calls_view(calls@) =~= before.push(c));
                assert(before + (seq![c] + served(g, t, inbox.skip(1)).calls) =~= before.push(c)
                    + served(g, t, inbox.skip(1)).calls);
            },
            Err(e) => {
                peer.conn.fail(e);
                assert(before + Seq::<CallView>::empty() =~= before);
                break ;
            },
        }
    }
}

/// A server: its nodes, its clients, and what procedures its nodes have.
pub struct Server {
    context: NodeContext,
    clients: Vec<Peer>,
    tables: Vec<Table>,
    next_connection_id: usize,
}

/// The model of a `Server`.
pub ghost struct ServerView {
    pub context: ContextView,
    pub clients: Seq<PeerView>,
    pub tables: Seq<TableView>,
    pub next_connection_id: usize,
}

impl View for Server {
    type V = ServerView;

    closed spec fn view(&self) -> ServerView {
        ServerView {
            context: self.context@,
            clients: peers_view(self.clients@),
            tables: tables_view(self.tables@),
            next_connection_id: self.next_connection_id,
        }
    }
}

/// What a client that has just connected is sent: a packet for its root
/// node that holds the node's id and value, and with it whatever the value
/// refers to.
pub open spec fn greeting(g: Graph, schema: SchemaView, root: u32) -> Seq<u8> {
    <Packet as ToStream>::wire(
        PacketView {
            node: root,
            magic: PACKET_MAGIC,
            data: wire(
                g,
                SchemaView::Node(Box::new(schema)),
                ValueView::Node(root),
            ),
        },
    )
}

/// The nodes of a server after a root node has been made for a client: the
/// node is the root of the client's connection, and what its value refers
/// to has it for a parent.
pub open spec fn rooted(c: ContextView, schema: SchemaView, root: ValueView, conn: usize) -> Graph {
    let id = c.next;
    let g1 = c.nodes.insert(id, fresh_node(id, c.role, schema, root));
    let g2 = g1.insert(id, NodeView { root: Some(conn), conns: g1[id].conns.insert(conn), ..g1[id] });
    adopted(g2, id)
}

impl Server {
    /// A server without nodes or clients. Its first node gets the id 1, and
    /// so does its first connection.
    pub fn new() -> (s: Server)
        ensures
            s@.context.role == Role::Server,
            s@.context.nodes == Map::<u32, NodeView>::empty(),
            s@.context.next == 1,
            s@.context.outbox == Seq::<EnvelopeView>::empty(),
            s@.clients == Seq::<PeerView>::empty(),
            s@.tables == Seq::<TableView>::empty(),
            s@.next_connection_id == 1,
    {
        let s = Server {
            context: NodeContext::new::<TagServer>(),
            clients: Vec::new(),
            tables: Vec::new(),
            next_connection_id: 1,
        };
        assert(s@.clients =~= Seq::<PeerView>::empty());
        assert(s@.tables =~= Seq::<TableView>::empty());
        s
    }

    /// Declares the procedures of the nodes of the shape `schema`.
    pub fn declare(&mut self, schema: Schema, procedures: Vec<Procedure>)
        ensures
            final(self)@ == (ServerView {
                tables: old(self)@.tables.push(
                    TableView { schema: schema@, procedures: procedures_view(procedures@) },
                ),
                ..old(self)@
            }),
    {
        self.tables.push(Table { schema, procedures });
        assert(self@.tables =~= old(self)@.tables.push(
            TableView { schema: schema@, procedures: procedures_view(procedures@) },
        ));
    }

    /// The nodes of the server.
    pub fn context(&self) -> (ctx: &NodeContext)
        ensures
            ctx@ == self@.context,
    {
        &self.context
    }

    /// The nodes of the server, to be changed.
    pub fn context_mut(&mut self) -> (ctx: &mut NodeContext)
        ensures
            (*ctx)@ == old(self)@.context,
            final(self)@ == (ServerView { context: (*final(ctx))@, ..old(self)@ }),
    {
        &mut self.context
    }

    /// The id that the next connection gets.
    pub fn next_connection_id(&self) -> (id: usize)
        ensures
            id == self@.next_connection_id,
    {
        self.next_connection_id
    }

    /// The id that the next node gets.
    pub fn next_node_id(&self) -> (id: u32)
        ensures
            id == self@.context.next,
    {
        self.context.next_id()
    }

    /// How many clients the server has.
    pub fn client_count(&self) -> (n: usize)
        ensures
            n == self@.clients.len(),
    {
        self.clients.len()
    }

    /// The id of the connection to the `i`-th client.
    pub fn connection_id(&self, i: usize) -> (id: usize)
        requires
            i < self@.clients.len(),
        ensures
            id == self@.clients[i as int].conn.id,
    {
        self.clients[i].conn.id()
    }

    /// Takes the bytes that wait to be written to the `i`-th client.
    pub fn take_outgoing(&mut self, i: usize) -> (out: Vec<u8>)
        requires
            i < old(self)@.clients.len(),
        ensures
            out@ == old(self)@.clients[i as int].conn.outgoing,
            final(self)@ == (ServerView {
                clients: old(self)@.clients.update(
                    i as int,
                    PeerView {
                        conn: ConnectionView {
                            outgoing: Seq::empty(),
                            ..old(self)@.clients[i as int].conn
                        },
                        ..old(self)@.clients[i as int]
                    },
                ),
                ..old(self)@
            }),
    {
        let ghost before = peers_view(self.clients@);
        let out = self.clients[i].conn.take_outgoing();
        assert(peers_view(self.clients@) =~= before.update(
            i as int,
            PeerView {
                conn: ConnectionView { outgoing: Seq::empty(), ..before[i as int].conn },
                ..before[i as int]
            },
        ));
        out
    }

    /// Takes in bytes that have arrived from the `i`-th client.
    pub fn feed(&mut self, i: usize, bytes: &[u8])
        requires
            i < old(self)@.clients.len(),
        ensures
            final(self)@.context == old(self)@.context,
            final(self)@.tables == old(self)@.tables,
            final(self)@.next_connection_id == old(self)@.next_connection_id,
            final(self)@.clients.len() == old(self)@.clients.len(),
            forall|k: int|
                0 <= k < old(self)@.clients.len() && k != i ==> final(self)@.clients[k] == old(self)@.clients[k],
            final(self)@.clients[i as int].root == old(self)@.clients[i as int].root,
            crate::connection::fed(
                old(self)@.clients[i as int].conn,
                final(self)@.clients[i as int].conn,
                bytes@,
            ),
    {
        let ghost before = peers_view(self.clients@);
        self.clients[i].conn.feed(bytes);
        assert forall|k: int| 0 <= k < before.len() && k != i implies peers_view(
            self.clients@,
        )[k] == before[k] by {}
    }

    /// Records that the stream to the `i`-th client failed with `err`.
    pub fn fail(&mut self, i: usize, err: Error)
        requires
            i < old(self)@.clients.len(),
        ensures
            final(self)@ == (ServerView {
                clients: old(self)@.clients.update(
                    i as int,
                    PeerView {
                        conn: ConnectionView {
                            alive: false,
                            err: Some(err.fault()),
                            ..old(self)@.clients[i as int].conn
                        },
                        ..old(self)@.clients[i as int]
                    },
                ),
                ..old(self)@
            }),
    {
        let ghost before = peers_view(self.clients@);
        self.clients[i].conn.fail(err);
        assert(peers_view(self.clients@) =~= before.update(
            i as int,
            PeerView {
                conn: ConnectionView {
                    alive: false,
                    err: Some(err.fault()),
                    ..before[i as int].conn
                },
                ..before[i as int]
            },
        ));
    }

    /// Makes a node for `content`, a value of the shape `schema`.
    pub fn make_node(&mut self, schema: Schema, content: Value) -> (n: Node)
        requires
            old(self)@.context.next < u32::MAX,
            !old(self)@.context.nodes.contains_key(old(self)@.context.next),
        ensures
            n.id == old(self)@.context.next,
            n.id > 0,
            !old(self)@.context.nodes.contains_key(n.id),
            n.owner is None,
            final(self)@ == (ServerView {
                context: ContextView {
                    nodes: old(self)@.context.nodes.insert(
                        n.id,
                        fresh_node(n.id, old(self)@.context.role, schema@, content@),
                    ),
                    next: (n.id + 1) as u32,
                    ..old(self)@.context
                },
                ..old(self)@
            }),
    {
        let id = self.context.create(schema, content);
        Node { id, owner: None }
    }

    /// Takes on a client. A root node is made for `root`, a value of the
    /// shape `schema`, and the client's connection is made with the packet
    /// that greets the client among the bytes that wait to be written. A
    /// root that does not have its shape, or that refers to a node which is
    /// not there, is refused, and no client is taken on.
    pub fn add_client(&mut self, schema: Schema, root: Value) -> (r: Result<Node, Error>)
        requires
            old(self)@.context.next < u32::MAX,
            !old(self)@.context.nodes.contains_key(old(self)@.context.next),
            old(self)@.next_connection_id < usize::MAX,
        ensures
            final(self)@.tables == old(self)@.tables,
            final(self)@.context.role == old(self)@.context.role,
            final(self)@.context.outbox == old(self)@.context.outbox,
            final(self)@.context.next == old(self)@.context.next + 1,
            ({
                let id = old(self)@.context.next;
                let conn = old(self)@.next_connection_id;
                let g = rooted(old(self)@.context, schema@, root@, conn);
                if typed(g, SchemaView::Node(Box::new(schema@)), ValueView::Node(id)) {
                    &&& r == Ok::<Node, Error>(Node { id, owner: None })
                    &&& final(self)@.context.nodes == g
                    &&& final(self)@.next_connection_id == conn + 1
                    &&& final(self)@.clients == old(self)@.clients.push(
                        PeerView {
                            conn: ConnectionView {
                                id: conn,
                                alive: true,
                                err: None,
                                outgoing: greeting(g, schema@, id),
                                pending: Seq::empty(),
                                inbox: Seq::empty(),
                            },
                            root: id,
                        },
                    )
                } else {
                    &&& r is Err
                    &&& r->Err_0.fault() == Fault::Violation
                    &&& final(self)@.context.nodes == g.remove(id)
                    &&& final(self)@.next_connection_id == conn
                    &&& final(self)@.clients == old(self)@.clients
                }
            }),
    {
        let wrapped = Schema::Node(Box::new(schema.duplicate()));
        let cid = self.next_connection_id;
        let id = self.context.create(schema, root);
        self.context.set_root(id, cid);
        self.context.adopt(id);
        let mut payload: Vec<u8> = Vec::new();
        let handle = Value::Node(id);
        match write_value(&mut payload, &self.context, &wrapped, &handle) {
            Err(e) => {
                self.context.gc(id);
                Err(e)
            },
            Ok(()) => {
                let mut conn = Connection::new(cid);
                conn.send(id, payload.as_slice());
                let ghost before = peers_view(self.clients@);
                let node = Node { id, owner: None };
                self.clients.push(Peer { conn, root: node });
                self.next_connection_id = cid + 1;
                assert(peers_view(self.clients@) =~= before.push(
                    PeerView { conn: conn@, root: id },
                ));
                assert(conn@.outgoing =~= greeting(self@.context.nodes, schema@, id));
                Ok(node)
            },
        }
    }
}

/// The clients while their packets are served one after the other: the
/// first `i` have been served, the others have not.
pub open spec fn partly_served(
    g: Graph,
    tables: Seq<TableView>,
    clients: Seq<PeerView>,
    i: int,
) -> Seq<PeerView> {
    Seq::new(
        clients.len(),
        |k: int|
            if k < i {
                peer_served(g, tables, clients[k])
            } else {
                clients[k]
            },
    )
}

/// The bytes that the first `n` of `envs` put on the connection `conn`: a
/// packet for each envelope that is for the connection, in their order.
pub open spec fn frames_for(envs: Seq<EnvelopeView>, conn: usize, n: nat) -> Seq<u8>
    decreases n,
{
    if n == 0 || n > envs.len() {
        Seq::empty()
    } else {
        frames_for(envs, conn, (n - 1) as nat) + (if envs[n - 1].conn == conn {
            <Packet as ToStream>::wire(
                PacketView {
                    node: envs[n - 1].packet.node,
                    magic: PACKET_MAGIC,
                    data: envs[n - 1].packet.data,
                },
            )
        } else {
            Seq::empty()
        })
    }
}

/// The clients after the first `n` of `envs` have been put on their
/// connections.
pub open spec fn flushed(clients: Seq<PeerView>, envs: Seq<EnvelopeView>, n: nat) -> Seq<PeerView> {
    Seq::new(
        clients.len(),
        |k: int|
            PeerView {
                conn: ConnectionView {
                    outgoing: clients[k].conn.outgoing + frames_for(envs, clients[k].conn.id, n),
                    ..clients[k].conn
                },
                ..clients[k]
            },
    )
}

impl Server {
    /// Serves the packets that have arrived: the calls that they ask for
    /// are handed back, client by client and oldest first. A client whose
    /// packet is refused is dead, and dead clients are let go.
    pub fn update(&mut self) -> (calls: Vec<Call>)
        ensures
            final(self)@.context == old(self)@.context,
            final(self)@.tables == old(self)@.tables,
            final(self)@.next_connection_id == old(self)@.next_connection_id,
            calls_view(calls@) == calls_of(
                old(self)@.context.nodes,
                old(self)@.tables,
                old(self)@.clients,
                old(self)@.clients.len(),
            ),
            final(self)@.clients == survivors(
                old(self)@.context.nodes,
                old(self)@.tables,
                old(self)@.clients,
                old(self)@.clients.len(),
            ),
    {
        let ghost g = self@.context.nodes;
        let ghost t = self@.tables;
        let ghost c0 = self@.clients;
        let mut calls: Vec<Call> = Vec::new();
        let mut i: usize = 0;
        assert(calls_view(calls@) =~= Seq::<CallView>::empty());
        assert(peers_view(self.clients@) =~= partly_served(g, t, c0, 0));
        while i < self.clients.len()
            invariant
                i <= self.clients.len(),
                self.clients.len() == c0.len(),
                self@.context == old(self)@.context,
                self@.tables == old(self)@.tables,
                self@.next_connection_id == old(self)@.next_connection_id,
                g == self@.context.nodes,
                t == self@.tables,
                c0 == old(self)@.clients,
                calls_view(calls@) == calls_of(g, t, c0, i as nat),
                peers_view(self.clients@) == partly_served(g, t, c0, i as int),
            decreases self.clients.len() - i,
        {
            let ghost before = peers_view(self.clients@);
            let ghost vec0 = self.clients@;
            let ghost calls0 = calls_view(calls@);
            assert(before[i as int] == c0[i as int]);
            serve(&mut self.clients[i], &self.context, &self.tables, &mut calls);
            assert(self.clients@ =~= vec0.update(i as int, self.clients@[i as int]));
            assert(peers_view(self.clients@) =~= partly_served(g, t, c0, i as int + 1)) by {
                assert forall|k: int| 0 <= k < c0.len() implies peers_view(self.clients@)[k]
                    == partly_served(g, t, c0, i as int + 1)[k] by {
                    if k != i {
                        assert(self.clients@[k] == vec0[k]);
                        assert(peers_view(self.clients@)[k] == before[k]);
                    }
                }
            }
            assert(calls_view(calls@) == calls0 + served(g, t, c0[i as int].conn.inbox).calls);
            i = i + 1;
        }
        let ghost served_all = peers_view(self.clients@);
        let mut all: Vec<Peer> = Vec::new();
        core::mem::swap(&mut all, &mut self.clients);
        let mut kept: Vec<Peer> = Vec::new();
        let ghost mut j: nat = 0;
        assert(peers_view(kept@) =~= survivors(g, t, c0, 0));
        assert(peers_view(all@) =~= served_all.skip(0));
        while all.len() > 0
            invariant
                j + all.len() == c0.len(),
                served_all == partly_served(g, t, c0, c0.len() as int),
                peers_view(all@) == served_all.skip(j as int),
                peers_view(kept@) == survivors(g, t, c0, j),
                self@.context == old(self)@.context,
                self@.tables == old(self)@.tables,
                self@.next_connection_id == old(self)@.next_connection_id,
            decreases all.len(),
        {
            let ghost rest = peers_view(all@);
            let ghost so_far = peers_view(kept@);
            let ghost all0 = all@;
            let p = all.remove(0);
            assert(all@ =~= all0.skip(1));
            assert(p@ == rest[0]);
            assert(rest[0] == served_all[j as int]);
            assert(peers_view(all@) =~= served_all.skip(j as int + 1)) by {
                assert forall|k: int| 0 <= k < all@.len() implies peers_view(all@)[k]
                    == served_all.skip(j as int + 1)[k] by {
                    assert(all@[k] == all0[k + 1]);
                    assert(rest[k + 1] == served_all[j as int + k + 1]);
                }
            }
            if p.conn.is_alive() {
                kept.push(p);
                assert(peers_view(kept@) =~= so_far.push(p@));
            }
            proof {
                j = j + 1;
            }
        }
        self.clients = kept;
        calls
    }

    /// Moves the packets that wait in the outbox of the nodes to the
    /// connections that they are for. A packet for a connection that the
    /// server does not have is dropped.
    pub fn flush(&mut self)
        ensures
            final(self)@.context == (ContextView { outbox: Seq::empty(), ..old(self)@.context }),
            final(self)@.tables == old(self)@.tables,
            final(self)@.next_connection_id == old(self)@.next_connection_id,
            final(self)@.clients == flushed(
                old(self)@.clients,
                old(self)@.context.outbox,
                old(self)@.context.outbox.len(),
            ),
    {
        let ghost c0 = self@.clients;
        let ghost envs = self@.context.outbox;
        let out = self.context.take_outbox();
        let mut e: usize = 0;
        assert(peers_view(self.clients@) =~= flushed(c0, envs, 0)) by {
            assert forall|k: int| 0 <= k < c0.len() implies c0[k] == flushed(c0, envs, 0)[k] by {
                assert(c0[k].conn.outgoing + Seq::<u8>::empty() =~= c0[k].conn.outgoing);
            }
        }
        while e < out.len()
            invariant
                e <= out.len(),
                envs == crate::node::envelopes_view(out@),
                self@.context == (ContextView { outbox: Seq::empty(), ..old(self)@.context }),
                self@.tables == old(self)@.tables,
                self@.next_connection_id == old(self)@.next_connection_id,
                c0 == old(self)@.clients,
                self.clients.len() == c0.len(),
                peers_view(self.clients@) == flushed(c0, envs, e as nat),
            decreases out.len() - e,
        {
            let mut k: usize = 0;
            let ghost start = peers_view(self.clients@);
            while k < self.clients.len()
                invariant
                    k <= self.clients.len(),
                    e < out.len(),
                    envs == crate::node::envelopes_view(out@),
                    self@.context == (ContextView { outbox: Seq::empty(), ..old(self)@.context }),
                    self@.tables == old(self)@.tables,
                    self@.next_connection_id == old(self)@.next_connection_id,
                    self.clients.len() == c0.len(),
                    start == flushed(c0, envs, e as nat),
                    forall|m: int|
                        0 <= m < k ==> (#[trigger] peers_view(self.clients@)[m]) == flushed(
                            c0,
                            envs,
                            (e + 1) as nat,
                        )[m],
                    forall|m: int|
                        k <= m < c0.len() ==> (#[trigger] peers_view(self.clients@)[m])
                            == start[m],
                decreases self.clients.len() - k,
            {
                let ghost before = peers_view(self.clients@);
                let ghost vec0 = self.clients@;
                assert(before[k as int] == start[k as int]);
                if self.clients[k].conn.id() == out[e].conn {
                    self.clients[k].conn.send(out[e].packet.node, out[e].packet.data.as_slice());
                    assert(self.clients@ =~= vec0.update(k as int, self.clients@[k as int]));
                    assert(peers_view(self.clients@)[k as int].conn.outgoing =~= c0[k as int].conn.outgoing
                        + frames_for(envs, c0[k as int].conn.id, (e + 1) as nat));
                } else {
                    assert(peers_view(self.clients@)[k as int].conn.outgoing =~= c0[k as int].conn.outgoing
                        + frames_for(envs, c0[k as int].conn.id, (e + 1) as nat));
                }
                assert forall|m: int| 0 <= m < c0.len() && m != k implies peers_view(
                    self.clients@,
                )[m] == before[m] by {
                    assert(self.clients@[m] == vec0[m]);
                }
                assert(peers_view(self.clients@)[k as int] == flushed(c0, envs, (e + 1) as nat)[k as int]);
                assert forall|m: int| 0 <= m < k + 1 implies (#[trigger] peers_view(
                    self.clients@,
                )[m]) == flushed(c0, envs, (e + 1) as nat)[m] by {
                    if m != k {
                        assert(peers_view(self.clients@)[m] == before[m]);
                        assert(before[m] == flushed(c0, envs, (e + 1) as nat)[m]);
                    }
                }
                assert forall|m: int| k + 1 <= m < c0.len() implies (#[trigger] peers_view(
                    self.clients@,
                )[m]) == start[m] by {
                    assert(peers_view(self.clients@)[m] == before[m]);
                    assert(before[m] == start[m]);
                }
                k = k + 1;
            }
            assert(peers_view(self.clients@) =~= flushed(c0, envs, (e + 1) as nat));
            e = e + 1;
        }
    }
}

/// A client: the connection to the server, the root node that the server
/// has given it, and its copies of the server's nodes.
pub struct Client {
    conn: Connection,
    root: Node,
    context: NodeContext,
    schema: Schema,
}

/// The model of a `Client`.
pub ghost struct ClientView {
    pub conn: ConnectionView,
    pub root: u32,
    pub context: ContextView,
    pub schema: SchemaView,
}

impl View for Client {
    type V = ClientView;

    closed spec fn view(&self) -> ClientView {
        ClientView {
            conn: self.conn@,
            root: self.root.id,
            context: self.context@,
            schema: self.schema@,
        }
    }
}

/// The nodes of a client that has been greeted with the packet `p`: the
/// nodes that the packet brings, with the root node as the root of the
/// connection `conn`. A packet that does not hold a root of the shape
/// `schema`, or holds one for another node than it is addressed to, is
/// refused.
pub open spec fn started(p: PacketView, conn: usize, schema: SchemaView) -> Result<Graph, Fault> {
    match parse(Map::empty(), Role::Client, SchemaView::Node(Box::new(schema)), p.data) {
        Err(f) => Err(f),
        Ok(r) => if r.value != ValueView::Node(p.node) {
            Err(Fault::Violation)
        } else {
            let g = r.graph;
            let rooted = if g.contains_key(p.node) {
                g.insert(
                    p.node,
                    NodeView {
                        root: Some(conn),
                        conns: g[p.node].conns.insert(conn),
                        ..g[p.node]
                    },
                )
            } else {
                g
            };
            Ok(adopted(rooted, p.node))
        },
    }
}

/// The nodes of a client after the updates `inbox` have been applied,
/// oldest first; none where an update is refused.
pub open spec fn caught_up(c: ContextView, inbox: Seq<PacketView>) -> Option<Graph>
    decreases inbox.len(),
{
    if inbox.len() == 0 {
        Some(c.nodes)
    } else {
        match member_applied(c, inbox[0].node, inbox[0].data) {
            Err(_) => None,
            Ok(g) => caught_up(ContextView { nodes: g, ..c }, inbox.skip(1)),
        }
    }
}

/// How a client's updates came to be refused.
pub ghost struct Refusal {
    /// Why the update was refused.
    pub why: Fault,
    /// The node that the update was for.
    pub node: u32,
    /// The nodes as they were when the update came to be applied.
    pub nodes: Graph,
    /// The updates after it.
    pub left: Seq<PacketView>,
}

/// The first of the updates `inbox` that is refused. It says nothing where
/// none is refused.
pub open spec fn refusal(c: ContextView, inbox: Seq<PacketView>) -> Refusal
    decreases inbox.len(),
{
    if inbox.len() == 0 {
        Refusal { why: Fault::Violation, node: 0, nodes: c.nodes, left: Seq::empty() }
    } else {
        match member_applied(c, inbox[0].node, inbox[0].data) {
            Err(f) => Refusal { why: f, node: inbox[0].node, nodes: c.nodes, left: inbox.skip(1) },
            Ok(g) => refusal(ContextView { nodes: g, ..c }, inbox.skip(1)),
        }
    }
}

impl Client {
    /// A client on the connection `conn`, whose first packet greets it with
    /// a root of the shape `schema`. The packet has arrived, or the
    /// connection is dead: the caller has waited for that. A dead
    /// connection without a packet is refused with its error.
    pub fn new(conn: Connection, schema: Schema) -> (r: Result<Client, Error>)
        requires
            conn@.inbox.len() > 0 || !conn@.alive,
        ensures
            conn@.inbox.len() == 0 ==> r is Err && conn.recorded() == Some(r->Err_0) && conn@.err
                == Some(r->Err_0.fault()),
            conn@.inbox.len() > 0 ==> match started(conn@.inbox[0], conn@.id, schema@) {
                Err(f) => r is Err && r->Err_0.fault() == f,
                Ok(g) => r is Ok && r->Ok_0@ == (ClientView {
                    conn: ConnectionView { inbox: conn@.inbox.skip(1), ..conn@ },
                    root: conn@.inbox[0].node,
                    context: ContextView {
                        role: Role::Client,
                        nodes: g,
                        next: 1,
                        outbox: Seq::empty(),
                    },
                    schema: schema@,
                }),
            },
    {
        let mut conn = conn;
        let packet = match conn.recv_blocking() {
            Some(p) => p,
            None => {
                return match conn.into_error() {
                    Some(e) => Err(e),
                    None => Err(Error::custom("the connection is closed")),
                };
            },
        };
        let mut context = NodeContext::new::<TagClient>();
        let wrapped = Schema::Node(Box::new(schema.duplicate()));
        let id = packet.node;
        let mut cur = Cursor::new(packet.data);
        let v = match read_value(&mut cur, &mut context, &wrapped) {
            Ok(v) => v,
            Err(e) => {
                return Err(e);
            },
        };
        match v {
            Value::Node(got) => {
                if got != id {
                    return Err(Error::custom("a root for another node"));
                }
            },
            _ => {
                return Err(Error::custom("a root that is no node"));
            },
        }
        context.set_root(id, conn.id());
        context.adopt(id);
        Ok(Client { conn, root: Node { id, owner: None }, context, schema })
    }

    /// The root node.
    pub fn root(&self) -> (n: Node)
        ensures
            n.id == self@.root,
    {
        self.root
    }

    /// The client's copies of the server's nodes.
    pub fn context(&self) -> (ctx: &NodeContext)
        ensures
            ctx@ == self@.context,
    {
        &self.context
    }

    /// Whether the connection still works.
    pub fn is_alive(&self) -> (alive: bool)
        ensures
            alive == self@.conn.alive,
    {
        self.conn.is_alive()
    }

    /// Whether an update was applied to the node `node` since this was last
    /// asked; the answer is then forgotten.
    pub fn changed(&mut self, node: u32) -> (r: bool)
        ensures
            r == (old(self)@.context.nodes.contains_key(node) && old(self)@.context.nodes[node].changed),
            final(self)@ == (ClientView {
                context: ContextView {
                    nodes: if old(self)@.context.nodes.contains_key(node) {
                        old(self)@.context.nodes.insert(
                            node,
                            NodeView { changed: false, ..old(self)@.context.nodes[node] },
                        )
                    } else {
                        old(self)@.context.nodes
                    },
                    ..old(self)@.context
                },
                ..old(self)@
            }),
    {
        self.context.changed(node)
    }

    /// Takes the bytes that wait to be written to the server.
    pub fn take_outgoing(&mut self) -> (out: Vec<u8>)
        ensures
            out@ == old(self)@.conn.outgoing,
            final(self)@ == (ClientView {
                conn: ConnectionView { outgoing: Seq::empty(), ..old(self)@.conn },
                ..old(self)@
            }),
    {
        self.conn.take_outgoing()
    }

    /// Takes in bytes that have arrived from the server.
    pub fn feed(&mut self, bytes: &[u8])
        ensures
            crate::connection::fed(old(self)@.conn, final(self)@.conn, bytes@),
            final(self)@ == (ClientView { conn: final(self)@.conn, ..old(self)@ }),
    {
        self.conn.feed(bytes)
    }

    /// Records that the stream to the server failed with `err`.
    pub fn fail(&mut self, err: Error)
        ensures
            final(self)@ == (ClientView {
                conn: ConnectionView { alive: false, err: Some(err.fault()), ..old(self)@.conn },
                ..old(self)@
            }),
    {
        self.conn.fail(err)
    }

    /// Applies the updates that have arrived, oldest first, and marks the
    /// nodes that they are for as changed. An update that is refused kills
    /// the connection, with the reason on its record; it is not applied to
    /// its node, and the updates after it are not applied: they stay where
    /// they are.
    pub fn update(&mut self)
        ensures
            final(self)@.root == old(self)@.root,
            final(self)@.schema == old(self)@.schema,
            final(self)@.context.role == old(self)@.context.role,
            final(self)@.context.next == old(self)@.context.next,
            final(self)@.context.outbox == old(self)@.context.outbox,
            final(self)@.conn.id == old(self)@.conn.id,
            final(self)@.conn.outgoing == old(self)@.conn.outgoing,
            final(self)@.conn.pending == old(self)@.conn.pending,
            match caught_up(old(self)@.context, old(self)@.conn.inbox) {
                Some(g) => final(self)@.context.nodes == g && final(self)@.conn == (
                ConnectionView { inbox: Seq::empty(), ..old(self)@.conn }),
                None => !final(self)@.conn.alive && final(self)@.conn.err == Some(
                    refusal(old(self)@.context, old(self)@.conn.inbox).why,
                ) && final(self)@.conn.inbox == refusal(
                    old(self)@.context,
                    old(self)@.conn.inbox,
                ).left && value_kept(
                    refusal(old(self)@.context, old(self)@.conn.inbox).nodes,
                    final(self)@.context.nodes,
                    refusal(old(self)@.context, old(self)@.conn.inbox).node,
                ),
            },
    {
        loop
            invariant_except_break
                self@.conn == (ConnectionView { inbox: self@.conn.inbox, ..old(self)@.conn }),
                caught_up(old(self)@.context, old(self)@.conn.inbox) == caught_up(
                    self@.context,
                    self@.conn.inbox,
                ),
                refusal(old(self)@.context, old(self)@.conn.inbox) == refusal(
                    self@.context,
                    self@.conn.inbox,
                ),
            invariant
                self@.root == old(self)@.root,
                self@.schema == old(self)@.schema,
                self@.context.role == old(self)@.context.role,
                self@.context.next == old(self)@.context.next,
                self@.context.outbox == old(self)@.context.outbox,
                self@.conn.id == old(self)@.conn.id,
                self@.conn.outgoing == old(self)@.conn.outgoing,
                self@.conn.pending == old(self)@.conn.pending,
            ensures
                match caught_up(old(self)@.context, old(self)@.conn.inbox) {
                    Some(g) => self@.context.nodes == g && self@.conn == (ConnectionView {
                        inbox: Seq::empty(),
                        ..old(self)@.conn
                    }),
                    None => !self@.conn.alive && self@.conn.err == Some(
                        refusal(old(self)@.context, old(self)@.conn.inbox).why,
                    ) && self@.conn.inbox == refusal(old(self)@.context, old(self)@.conn.inbox).left
                        && value_kept(
                        refusal(old(self)@.context, old(self)@.conn.inbox).nodes,
                        self@.context.nodes,
                        refusal(old(self)@.context, old(self)@.conn.inbox).node,
                    ),
                },
            decreases self@.conn.inbox.len(),
        {
            let ghost c = self@.context;
            let packet = match self.conn.recv() {
                Some(p) => p,
                None => {
                    assert(self@.conn.inbox =~= Seq::<PacketView>::empty());
                    break ;
                },
            };
            let id = packet.node;
            let mut cur = Cursor::new(packet.data);
            match self.context.receive_update(id, &mut cur) {
                Ok(()) => {
                    assert(self@.context == (ContextView { nodes: self@.context.nodes, ..c }));
                },
                Err(e) => {
                    self.conn.fail(e);
                    break ;
                },
            }
        }
    }

    /// Calls `procedure` on the node `node` of the server with the
    /// arguments `args`: the packet for the call joins the bytes that wait
    /// to be written.
    pub fn call(&mut self, node: u32, procedure: &Procedure, args: &Vec<Value>) -> (r: Result<
        (),
        Error,
    >)
        ensures
            call_typed(procedure@, values_view(*args)) ==> r is Ok && final(self)@ == (ClientView {
                conn: ConnectionView {
                    outgoing: old(self)@.conn.outgoing + <Packet as ToStream>::wire(
                        PacketView {
                            node,
                            magic: PACKET_MAGIC,
                            data: call_wire(procedure@, values_view(*args)),
                        },
                    ),
                    ..old(self)@.conn
                },
                ..old(self)@
            }),
            !call_typed(procedure@, values_view(*args)) ==> r is Err && r->Err_0.fault()
                == Fault::Violation && final(self)@ == old(self)@,
    {
        let mut buf: Vec<u8> = Vec::new();
        match write_call(&mut buf, procedure, args) {
            Err(e) => Err(e),
            Ok(()) => {
                assert(buf@ =~= call_wire(procedure@, values_view(*args)));
                self.conn.send(node, buf.as_slice());
                Ok(())
            },
        }
    }
}

} // verus!
