//! Packets, and the state of a connection to a peer.

use crate::encode::{be_u32, lemma_be_u32_round_trip, Cursor, FromStream};
use crate::encode::{Parsed, SerializeError, ToStream};
use crate::{Error, Fault};
use vstd::prelude::*;
use vstd::std_specs::cmp::PartialEqSpecImpl;
use vstd::slice::slice_to_vec;

verus! {

/// The constant that every packet carries after its node id.
pub const PACKET_MAGIC: u32 = 0x12345678;

/// A message for one node.
#[derive(Debug)]
pub struct Packet {
    /// The id of the node that the message is for.
    pub node: u32,
    /// The constant; a packet that carries another value is corrupt.
    pub magic: u32,
    /// The payload.
    pub data: Vec<u8>,
}

/// The model of a packet.
pub ghost struct PacketView {
    pub node: u32,
    pub magic: u32,
    pub data: Seq<u8>,
}

impl View for Packet {
    type V = PacketView;

    open spec fn view(&self) -> PacketView {
        PacketView { node: self.node, magic: self.magic, data: self.data@ }
    }
}

impl Packet {
    /// A packet for `node` with the payload `data`.
    pub fn new(node: u32, data: Vec<u8>) -> (p: Packet)
        ensures
            p@ == (PacketView { node, magic: PACKET_MAGIC, data: data@ }),
    {
        Packet { node, magic: PACKET_MAGIC, data }
    }

    /// The constant that the packet carries.
    pub fn magic(&self) -> (m: u32)
        ensures
            m == self@.magic,
    {
        self.magic
    }
}

/// A packet on its way to one peer.
#[derive(Debug)]
pub struct Envelope {
    /// The id of the connection to send on.
    pub conn: usize,
    pub packet: Packet,
}

/// The model of an envelope.
pub ghost struct EnvelopeView {
    pub conn: usize,
    pub packet: PacketView,
}

impl View for Envelope {
    type V = EnvelopeView;

    open spec fn view(&self) -> EnvelopeView {
        EnvelopeView { conn: self.conn, packet: self.packet@ }
    }
}

impl DeepView for Packet {
    type V = PacketView;

    open spec fn deep_view(&self) -> PacketView {
        self@
    }
}

impl ToStream for Packet {
    /// The id of the node, the constant, the length of the payload and the
    /// payload.
    open spec fn wire(v: PacketView) -> Seq<u8> {
        be_u32(v.node) + be_u32(v.magic) + <Vec<u8> as ToStream>::wire(v.data)
    }

    fn encode(&self, stream: &mut Vec<u8>) -> (r: Result<(), SerializeError>) {
        let _ = self.node.encode(stream);
        let _ = self.magic.encode(stream);
        assert(self.data.deep_view() =~= self.data@);
        let _ = self.data.encode(stream);
        Ok(())
    }
}

impl FromStream for Packet {
    open spec fn parse(bytes: Seq<u8>) -> Parsed<PacketView> {
        match <u32 as FromStream>::parse(bytes) {
            Err(e) => Err(e),
            Ok((node, _)) => match <u32 as FromStream>::parse(bytes.skip(4)) {
                Err(e) => Err(e),
                Ok((magic, _)) => match <Vec<u8> as FromStream>::parse(bytes.skip(8)) {
                    Err(e) => Err(e),
                    Ok((data, used)) => Ok((PacketView { node, magic, data }, 8 + used)),
                },
            },
        }
    }

    open spec fn fits(v: PacketView) -> bool {
        v.data.len() <= u32::MAX
    }

    proof fn lemma_parse_bounds(bytes: Seq<u8>) {
        if bytes.len() >= 8 {
            <Vec<u8> as FromStream>::lemma_parse_bounds(bytes.skip(8));
        }
    }

    proof fn lemma_round_trip(v: PacketView, rest: Seq<u8>) {
        let body = <Vec<u8> as ToStream>::wire(v.data);
        let all = Self::wire(v) + rest;
        lemma_be_u32_round_trip(v.node, be_u32(v.magic) + body + rest);
        lemma_be_u32_round_trip(v.magic, body + rest);
        assert(all =~= be_u32(v.node) + (be_u32(v.magic) + body + rest));
        assert(all.skip(4) =~= be_u32(v.magic) + (body + rest));
        assert(all.skip(8) =~= body + rest);
        assert(<Vec<u8> as FromStream>::fits(v.data));
        <Vec<u8> as FromStream>::lemma_round_trip(v.data, rest);
    }

    fn decode(stream: &mut Cursor) -> (r: Result<Packet, SerializeError>) {
        let ghost all = stream.remaining();
        let node = u32::decode(stream)?;
        let magic = u32::decode(stream)?;
        assert(stream.remaining() == all.skip(8)) by {
            assert(all.skip(4).skip(4) == all.skip(8));
        }
        proof {
            <Vec<u8> as FromStream>::lemma_parse_bounds(all.skip(8));
        }
        let ghost body = <Vec<u8> as FromStream>::parse(all.skip(8));
        let data = Vec::<u8>::decode(stream)?;
        assert(data.deep_view() =~= data@);
        assert(all.skip(8).skip(body->Ok_0.1) == all.skip(8 + body->Ok_0.1));
        Ok(Packet { node, magic, data })
    }
}

/// One end of a duplex byte stream to a peer, as far as it can be told
/// without touching the stream: the bytes that wait to be written, the bytes
/// that have arrived, and the packets among them.
pub struct Connection {
    id: usize,
    err: Option<Error>,
    outgoing: Vec<u8>,
    pending: Vec<u8>,
    inbox: Vec<Packet>,
}

/// The model of a connection.
pub ghost struct ConnectionView {
    /// The id, by which connections are told apart.
    pub id: usize,
    /// Whether the connection still works.
    pub alive: bool,
    /// The kind of the error that killed the connection, while it is dead:
    /// the last one that was recorded.
    pub err: Option<Fault>,
    /// The bytes that wait to be written to the peer.
    pub outgoing: Seq<u8>,
    /// The bytes that have arrived and are no whole packet yet.
    pub pending: Seq<u8>,
    /// The packets that have arrived, oldest first.
    pub inbox: Seq<PacketView>,
}

/// The models of a row of packets.
pub open spec fn packets_view(packets: Seq<Packet>) -> Seq<PacketView> {
    Seq::new(packets.len(), |i: int| packets[i]@)
}

impl View for Connection {
    type V = ConnectionView;

    closed spec fn view(&self) -> ConnectionView {
        ConnectionView {
            id: self.id,
            alive: self.err is None,
            err: match self.err {
                Some(e) => Some(e.fault()),
                None => None,
            },
            outgoing: self.outgoing@,
            pending: self.pending@,
            inbox: packets_view(self.inbox@),
        }
    }
}

/// What becomes of a connection's input once `buf` has arrived and no whole
/// packet has been taken from it yet.
pub ghost struct Drained {
    /// The packets found, oldest first.
    pub packets: Seq<PacketView>,
    /// The bytes that are left over.
    pub left: Seq<u8>,
    /// Whether a packet with the wrong constant was met.
    pub corrupt: bool,
}

/// The whole packets at the front of `buf`, up to the first one with the
/// wrong constant, and what is left over.
pub open spec fn drained(buf: Seq<u8>) -> Drained
    decreases buf.len(),
{
    match <Packet as FromStream>::parse(buf) {
        Err(_) => Drained { packets: Seq::empty(), left: buf, corrupt: false },
        Ok((p, used)) => if p.magic != PACKET_MAGIC {
            Drained { packets: Seq::empty(), left: buf.skip(used), corrupt: true }
        } else if 0 < used <= buf.len() {
            let more = drained(buf.skip(used));
            Drained { packets: seq![p] + more.packets, ..more }
        } else {
            Drained { packets: Seq::empty(), left: buf, corrupt: false }
        },
    }
}

/// Whether `after` is the connection `before` once `bytes` have arrived:
/// every whole packet among what has arrived has joined the packets that
/// wait to be received; a packet with the wrong constant was not passed on
/// and has killed the connection; and a dead connection took nothing in.
pub open spec fn fed(before: ConnectionView, after: ConnectionView, bytes: Seq<u8>) -> bool {
    if !before.alive {
        after == before
    } else {
        let d = drained(before.pending + bytes);
        after == (ConnectionView {
            alive: !d.corrupt,
            err: if d.corrupt {
                Some(Fault::Violation)
            } else {
                before.err
            },
            pending: d.left,
            inbox: before.inbox + d.packets,
            ..before
        })
    }
}

impl PartialEq for Connection {
    /// Connections are told apart by their ids alone.
    fn eq(&self, other: &Connection) -> (r: bool) {
        self.id == other.id
    }
}

impl PartialEqSpecImpl for Connection {
    open spec fn obeys_eq_spec() -> bool {
        true
    }

    open spec fn eq_spec(&self, other: &Connection) -> bool {
        self@.id == other@.id
    }
}

impl Connection {
    /// The error on record: the last one that killed the connection.
    pub closed spec fn recorded(&self) -> Option<Error> {
        self.err
    }

    /// A connection with the given id, alive and with nothing sent or
    /// received.
    pub fn new(id: usize) -> (c: Connection)
        ensures
            c@ == (ConnectionView {
                id,
                alive: true,
                err: None,
                outgoing: Seq::empty(),
                pending: Seq::empty(),
                inbox: Seq::empty(),
            }),
            c.recorded() is None,
    {
        let c = Connection {
            id,
            err: None,
            outgoing: Vec::new(),
            pending: Vec::new(),
            inbox: Vec::new(),
        };
        assert(c@.inbox =~= Seq::<PacketView>::empty());
        c
    }

    /// The id, by which connections are told apart.
    pub fn id(&self) -> (id: usize)
        ensures
            id == self@.id,
    {
        self.id
    }

    /// Whether the connection still works.
    pub fn is_alive(&self) -> (alive: bool)
        ensures
            alive == self@.alive,
    {
        self.err.is_none()
    }

    /// Whether a packet waits to be received or the connection is dead: then
    /// `recv_blocking` has nothing to wait for.
    pub fn ready(&self) -> (r: bool)
        ensures
            r == (self@.inbox.len() > 0 || !self@.alive),
    {
        self.inbox.len() > 0 || self.err.is_some()
    }

    /// Nothing where the connection still works; else the error that killed
    /// it, the last one that was recorded, on every call.
    pub fn status(&self) -> (r: Result<(), &Error>)
        ensures
            r is Ok <==> self@.alive,
            r matches Err(e) ==> self.recorded() == Some(*e) && self@.err == Some(e.fault()),
    {
        match &self.err {
            None => Ok(()),
            Some(e) => Err(e),
        }
    }

    /// The error that killed the connection, if it is dead; the connection
    /// is given up for it.
    pub fn into_error(self) -> (r: Option<Error>)
        ensures
            r == self.recorded(),
            r is None <==> self@.alive,
            r matches Some(e) ==> self@.err == Some(e.fault()),
    {
        self.err
    }

    /// Puts a packet for the node `node` with the payload `data` among the
    /// bytes that wait to be written.
    pub fn send(&mut self, node: u32, data: &[u8])
        ensures
            final(self)@ == (ConnectionView {
                outgoing: old(self)@.outgoing + <Packet as ToStream>::wire(
                    PacketView { node, magic: PACKET_MAGIC, data: data@ },
                ),
                ..old(self)@
            }),
            final(self).recorded() == old(self).recorded(),
    {
        let packet = Packet::new(node, slice_to_vec(data));
        let _ = packet.encode(&mut self.outgoing);
    }

    /// The oldest packet that has arrived, if there is one.
    pub fn recv(&mut self) -> (r: Option<Packet>)
        ensures
            match r {
                Some(p) => old(self)@.inbox.len() > 0 && p@ == old(self)@.inbox[0] && final(self)@
                    == (ConnectionView { inbox: old(self)@.inbox.skip(1), ..old(self)@ }),
                None => old(self)@.inbox.len() == 0 && final(self)@ == old(self)@,
            },
            final(self).recorded() == old(self).recorded(),
    {
        if self.inbox.len() > 0 {
            let ghost before = packets_view(self.inbox@);
            let p = self.inbox.remove(0);
            assert(packets_view(self.inbox@) =~= before.skip(1));
            Some(p)
        } else {
            None
        }
    }

    /// The oldest packet that has arrived, once there is one or the
    /// connection is dead: the caller waits for that and feeds what arrives
    /// meanwhile.
    pub fn recv_blocking(&mut self) -> (r: Option<Packet>)
        requires
            old(self)@.inbox.len() > 0 || !old(self)@.alive,
        ensures
            match r {
                Some(p) => old(self)@.inbox.len() > 0 && p@ == old(self)@.inbox[0] && final(self)@
                    == (ConnectionView { inbox: old(self)@.inbox.skip(1), ..old(self)@ }),
                None => old(self)@.inbox.len() == 0 && final(self)@ == old(self)@,
            },
            final(self).recorded() == old(self).recorded(),
    {
        self.recv()
    }

    /// Records that the stream failed with `err`: the connection is dead.
    pub fn fail(&mut self, err: Error)
        ensures
            final(self)@ == (ConnectionView {
                alive: false,
                err: Some(err.fault()),
                ..old(self)@
            }),
            final(self).recorded() == Some(err),
    {
        self.err = Some(err);
    }

    /// Takes the bytes that wait to be written to the peer.
    pub fn take_outgoing(&mut self) -> (out: Vec<u8>)
        ensures
            out@ == old(self)@.outgoing,
            final(self)@ == (ConnectionView { outgoing: Seq::empty(), ..old(self)@ }),
            final(self).recorded() == old(self).recorded(),
    {
        let mut out: Vec<u8> = Vec::new();
        core::mem::swap(&mut out, &mut self.outgoing);
        out
    }

    /// Takes in bytes that have arrived from the peer. Every whole packet
    /// among what has arrived joins the packets that wait to be received. A
    /// packet with the wrong constant is not passed on: the connection is
    /// dead from then on, and so it is for a dead connection, which takes
    /// nothing in.
    pub fn feed(&mut self, bytes: &[u8])
        ensures
            fed(old(self)@, final(self)@, bytes@),
            final(self)@.alive || !old(self)@.alive ==> final(self).recorded() == old(self).recorded(),
    {
        if self.err.is_some() {
            return ;
        }
        crate::encode::append(&mut self.pending, bytes);
        let ghost buf = self.pending@;
        let ghost inbox0 = packets_view(self.inbox@);
        let mut all: Vec<u8> = Vec::new();
        core::mem::swap(&mut all, &mut self.pending);
        let mut cur = Cursor::new(all);
        let mut done: usize = 0;
        let mut corrupt = false;
        assert(buf.skip(0) == buf);
        assert(inbox0 + Seq::<PacketView>::empty() =~= inbox0);
        loop
            invariant_except_break
                cur.remaining() == buf.skip(done as int),
                cur.position() == done,
                !corrupt,
                ({
                    let d = drained(buf);
                    let here = drained(buf.skip(done as int));
                    &&& d.corrupt == here.corrupt
                    &&& d.left == here.left
                    &&& inbox0 + d.packets == packets_view(self.inbox@) + here.packets
                }),
            invariant
                cur.bytes() == buf,
                done <= buf.len(),
                self@.id == old(self)@.id,
                self@.alive,
                self@.err == old(self)@.err,
                self@.outgoing == old(self)@.outgoing,
            ensures
                cur.bytes() == buf,
                done <= buf.len(),
                self@.id == old(self)@.id,
                self@.alive,
                self@.err == old(self)@.err,
                self@.outgoing == old(self)@.outgoing,
                corrupt == drained(buf).corrupt,
                drained(buf).left == buf.skip(done as int),
                packets_view(self.inbox@) == inbox0 + drained(buf).packets,
            decreases buf.len() - done,
        {
            let ghost rest = buf.skip(done as int);
            proof {
                <Packet as FromStream>::lemma_parse_bounds(rest);
            }
            let ghost before = packets_view(self.inbox@);
            match Packet::decode(&mut cur) {
                Err(_) => {
                    assert(before + Seq::<PacketView>::empty() =~= before);
                    break ;
                },
                Ok(p) => {
                    let ghost used = <Packet as FromStream>::parse(rest)->Ok_0.1;
                    assert(rest.skip(used) == buf.skip(done + used));
                    let step = cur.offset() - done;
                    if p.magic != PACKET_MAGIC {
                        corrupt = true;
                        done = done + step;
                        assert(before + Seq::<PacketView>::empty() =~= before);
                        break ;
                    }
                    if step == 0 {
                        assert(before + Seq::<PacketView>::empty() =~= before);
                        break ;
                    }
                    let ghost shown = p@;
                    self.inbox.push(p);
                    assert(packets_view(self.inbox@) =~= before.push(shown));
                    assert(before + (seq![shown] + drained(rest.skip(used)).packets) =~= before.push(
                        shown,
                    ) + drained(rest.skip(used)).packets);
                    done = done + step;
                },
            }
        }
        self.pending = cur.into_rest(done);
        if corrupt {
            self.err = Some(Error::custom("Corrupt Packet"));
        }
    }
}

} // verus!
