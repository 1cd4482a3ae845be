//! Laws of a server and its clients: a packet that was written arrives
//! whole, a client that is greeted holds what the server's root reaches, and
//! what the server sends for a change to a member of a node, the client
//! makes of it the same change.

use crate::connection::{drained, fed, ConnectionView, Drained, Packet, PacketView, PACKET_MAGIC};
use crate::encode::{FromStream, ToStream};
use crate::node::{adopted, member_applied, member_update, member_used, released};
use crate::node::{ContextView, Graph, NodeView};
use crate::node::Role;
use crate::replication::{compatible, lemma_round_trip, lemma_update_keeps_in_step};
use crate::replication::{lemma_update_read_whole, lemma_update_replays, reach, replica};
use crate::server::{greeting, peer_served, started, survivors, PeerView, TableView};
use crate::value::SchemaView;
use crate::visitor::serializer::{typed, wire};
use crate::Fault;
use crate::upkeep::lemma_below_same;
use crate::value::{dict_cut, dict_put, Scalar, ValueView};
use crate::visitor::serializer::text_wire;
use crate::visitor::updater::{
    changed, intended, lemma_hit_bounds, put_back, received, sent_update, target,
    update_header, EditView, UpdateOp,
};
use vstd::prelude::*;

verus! {

/// Whether the node `id` is on the client `mine` what it is on the server
/// `theirs`: a node of the same shape with the same value, among nodes that
/// have the shapes which the server's nodes with their ids have.
pub open spec fn in_step(theirs: ContextView, mine: ContextView, id: u32) -> bool {
    &&& theirs.nodes.contains_key(id)
    &&& mine.nodes.contains_key(id)
    &&& mine.nodes[id].schema == theirs.nodes[id].schema
    &&& mine.nodes[id].value == theirs.nodes[id].value
    &&& compatible(mine.nodes, theirs.nodes)
}

/// The value of the node `id` after the server has made a change to a
/// member of it.
pub open spec fn value_sent(
    theirs: ContextView,
    id: u32,
    op: UpdateOp,
    tag: Seq<char>,
    key: Option<ValueView>,
    val: Option<ValueView>,
) -> ValueView {
    member_update(theirs, id, op, tag, key, val)->Ok_0.0[id].value
}

/// The value of the node `id` on a client after it has applied what the
/// server sent for a change to a member of the node.
pub open spec fn value_got(
    theirs: ContextView,
    mine: ContextView,
    id: u32,
    op: UpdateOp,
    tag: Seq<char>,
    key: Option<ValueView>,
    val: Option<ValueView>,
) -> ValueView {
    member_applied(mine, id, member_update(theirs, id, op, tag, key, val)->Ok_0.1)->Ok_0[id].value
}

/// A kind of change comes back from the byte that stands for it.
pub proof fn lemma_code_round_trip(op: UpdateOp)
    ensures
        UpdateOp::spec_from_code(op.spec_code()) == Some(op),
{
}

/// A client on which a node is what it is on the server applies what the
/// server sends for a change to a member of the node, reads all of it, and
/// has the server's new value for the node afterwards: the value with the change made in the
/// member, or the value as it was where no member has the tag.
pub proof fn lemma_member_in_step(
    theirs: ContextView,
    mine: ContextView,
    id: u32,
    op: UpdateOp,
    tag: Seq<char>,
    key: Option<ValueView>,
    val: Option<ValueView>,
)
    requires
        in_step(theirs, mine, id),
        member_update(theirs, id, op, tag, key, val) is Ok,
    ensures
        member_applied(mine, id, member_update(theirs, id, op, tag, key, val)->Ok_0.1) is Ok,
        member_update(theirs, id, op, tag, key, val)->Ok_0.0.contains_key(id),
        member_applied(
            mine,
            id,
            member_update(theirs, id, op, tag, key, val)->Ok_0.1,
        )->Ok_0.contains_key(id),
        value_got(theirs, mine, id, op, tag, key, val) == value_sent(theirs, id, op, tag, key, val),
        member_used(mine, id, member_update(theirs, id, op, tag, key, val)->Ok_0.1)
            == member_update(theirs, id, op, tag, key, val)->Ok_0.1.len(),
        value_sent(theirs, id, op, tag, key, val) == sent_update(
            released(theirs.nodes, id).remove(id),
            theirs.nodes[id].schema,
            theirs.nodes[id].value,
            op,
            tag,
            key,
            val,
        )->Ok_0.1,
{
    let g = theirs.nodes;
    let m = mine.nodes;
    let s = g[id].schema;
    let v = g[id].value;
    let g1 = released(g, id);
    let m1 = released(m, id);
    lemma_below_same(g, id);
    lemma_below_same(m, id);
    assert(g1.contains_key(id) && m1.contains_key(id));
    let sent = sent_update(g1.remove(id), s, v, op, tag, key, val);
    let payload = sent->Ok_0.0;
    let after = sent->Ok_0.1;
    let message = update_header(op, tag) + payload;
    assert(member_update(theirs, id, op, tag, key, val)->Ok_0.1 == message);
    // The client reads the kind and the tag back.
    lemma_code_round_trip(op);
    assert(message[0] == op.spec_code());
    assert(message.skip(1) =~= text_wire(tag) + payload);
    <String as FromStream>::lemma_round_trip(tag, payload);
    let used = text_wire(tag).len() as int;
    assert(message.skip(1 + used) =~= payload);
    // And makes of the rest what the server made.
    assert(compatible(m1.remove(id), g1.remove(id))) by {
        assert forall|x: u32|
            #![trigger m1.remove(id).contains_key(x)]
            #![trigger g1.remove(id).contains_key(x)]
            m1.remove(id).contains_key(x) && g1.remove(id).contains_key(x) implies m1.remove(
            id,
        )[x].schema == g1.remove(id)[x].schema by {
            assert(m.contains_key(x) && g.contains_key(x));
        }
    }
    lemma_update_keeps_in_step(g1.remove(id), m1.remove(id), mine.role, s, v, op, tag, key, val, Seq::empty());
    lemma_update_read_whole(
        g1.remove(id),
        m1.remove(id),
        mine.role,
        s,
        v,
        v,
        op,
        tag,
        key,
        val,
        Seq::empty(),
    );
    assert(payload + Seq::<u8>::empty() =~= payload);
    let got = received(m1.remove(id), mine.role, s, v, id, message);
    assert(got is Ok && got->Ok_0.1 == after);
    let g2 = g1.insert(id, NodeView { value: after, ..g1[id] });
    lemma_below_same(g2, id);
    let m2 = got->Ok_0.0.insert(id, NodeView { value: after, changed: true, ..m1[id] });
    lemma_below_same(m2, id);
    assert(m2.contains_key(id) && g2.contains_key(id));
}

/// What a change to a member does to the value of a node, on the server and
/// on a client that was in step: the member that has the tag is changed, and
/// nothing else.
///
/// `t` is the member that the tag names and `c` the change that is meant.
pub proof fn lemma_member_changed(
    theirs: ContextView,
    mine: ContextView,
    id: u32,
    op: UpdateOp,
    tag: Seq<char>,
    key: Option<ValueView>,
    val: Option<ValueView>,
    c: EditView,
)
    requires
        in_step(theirs, mine, id),
        member_update(theirs, id, op, tag, key, val) is Ok,
        target(theirs.nodes[id].schema, theirs.nodes[id].value, op, tag) matches Ok(Some(t))
            && intended(op, t.value, key, val) == Some(c),
    ensures
        ({
            let v = theirs.nodes[id].value;
            let t = target(theirs.nodes[id].schema, v, op, tag)->Ok_0->Some_0;
            &&& changed(t.value, c) is Ok
            &&& value_sent(theirs, id, op, tag, key, val) == put_back(
                v,
                t.index,
                changed(t.value, c)->Ok_0,
            )
            &&& value_got(theirs, mine, id, op, tag, key, val) == put_back(
                v,
                t.index,
                changed(t.value, c)->Ok_0,
            )
        }),
{
    lemma_member_in_step(theirs, mine, id, op, tag, key, val);
    lemma_below_same(theirs.nodes, id);
}

/// A targeted update: after `member_modified` the member with the tag is on
/// the client what it is on the server, and every other member of the
/// client's value is as it was, whatever the client's value was before.
///
/// The node has one shape on both sides, the shape of a record, and the
/// client's value has as many members as the server's.
pub proof fn lemma_member_modified(
    theirs: ContextView,
    mine: ContextView,
    id: u32,
    tag: Seq<char>,
    i: int,
)
    requires
        theirs.nodes[id].schema is Record,
        theirs.nodes.contains_key(id),
        mine.nodes.contains_key(id),
        mine.nodes[id].schema == theirs.nodes[id].schema,
        compatible(mine.nodes, theirs.nodes),
        mine.nodes[id].value is Record,
        mine.nodes[id].value->Record_0.len() == theirs.nodes[id].value->Record_0.len(),
        member_update(theirs, id, UpdateOp::Update, tag, None, None) is Ok,
        target(theirs.nodes[id].schema, theirs.nodes[id].value, UpdateOp::Update, tag)
            matches Ok(Some(t)) && t.index == i,
    ensures
        0 <= i < theirs.nodes[id].value->Record_0.len(),
        value_sent(theirs, id, UpdateOp::Update, tag, None, None) == theirs.nodes[id].value,
        member_applied(
            mine,
            id,
            member_update(theirs, id, UpdateOp::Update, tag, None, None)->Ok_0.1,
        ) is Ok,
        value_got(theirs, mine, id, UpdateOp::Update, tag, None, None) == ValueView::Record(
            mine.nodes[id].value->Record_0.update(i, theirs.nodes[id].value->Record_0[i]),
        ),
{
    let op = UpdateOp::Update;
    let g = theirs.nodes;
    let m = mine.nodes;
    let s = g[id].schema;
    let v = g[id].value;
    let w = m[id].value;
    let g1 = released(g, id);
    let m1 = released(m, id);
    lemma_below_same(g, id);
    lemma_below_same(m, id);
    assert(g1.contains_key(id) && m1.contains_key(id));
    lemma_hit_bounds(s->Record_0, tag, s->Record_0.len());
    let sent = sent_update(g1.remove(id), s, v, op, tag, None, None);
    let payload = sent->Ok_0.0;
    let after = sent->Ok_0.1;
    assert(after =~= v) by {
        assert(v->Record_0.update(i, v->Record_0[i]) =~= v->Record_0);
    }
    let message = update_header(op, tag) + payload;
    lemma_code_round_trip(op);
    assert(message[0] == op.spec_code());
    assert(message.skip(1) =~= text_wire(tag) + payload);
    <String as FromStream>::lemma_round_trip(tag, payload);
    let used = text_wire(tag).len() as int;
    assert(message.skip(1 + used) =~= payload);
    assert(compatible(m1.remove(id), g1.remove(id))) by {
        assert forall|x: u32|
            #![trigger m1.remove(id).contains_key(x)]
            #![trigger g1.remove(id).contains_key(x)]
            m1.remove(id).contains_key(x) && g1.remove(id).contains_key(x) implies m1.remove(
            id,
        )[x].schema == g1.remove(id)[x].schema by {
            assert(m.contains_key(x) && g.contains_key(x));
        }
    }
    lemma_update_replays(
        g1.remove(id),
        m1.remove(id),
        mine.role,
        s,
        v,
        w,
        op,
        tag,
        None,
        None,
        Seq::empty(),
    );
    assert(payload + Seq::<u8>::empty() =~= payload);
    let got = received(m1.remove(id), mine.role, s, w, id, message);
    assert(got is Ok);
    let g2 = g1.insert(id, NodeView { value: after, ..g1[id] });
    lemma_below_same(g2, id);
    let m2 = got->Ok_0.0.insert(id, NodeView { value: got->Ok_0.1, changed: true, ..m1[id] });
    lemma_below_same(m2, id);
    assert(m2.contains_key(id) && g2.contains_key(id));
}

/// After `member_vec_push` with the item `x`, the list under the tag is the
/// list that it was with `x` at its end, on the server and on every client
/// that was in step.
pub proof fn lemma_member_vec_push(
    theirs: ContextView,
    mine: ContextView,
    id: u32,
    tag: Seq<char>,
    x: ValueView,
    i: int,
    items: Seq<ValueView>,
)
    requires
        theirs.nodes[id].schema is Record,
        in_step(theirs, mine, id),
        member_update(theirs, id, UpdateOp::VecPush, tag, None, Some(x)) is Ok,
        target(theirs.nodes[id].schema, theirs.nodes[id].value, UpdateOp::VecPush, tag)
            matches Ok(Some(t)) && t.index == i && t.value == ValueView::List(items),
    ensures
        value_sent(theirs, id, UpdateOp::VecPush, tag, None, Some(x)) == ValueView::Record(
            theirs.nodes[id].value->Record_0.update(i, ValueView::List(items.push(x))),
        ),
        value_got(theirs, mine, id, UpdateOp::VecPush, tag, None, Some(x)) == value_sent(
            theirs,
            id,
            UpdateOp::VecPush,
            tag,
            None,
            Some(x),
        ),
{
    lemma_member_changed(theirs, mine, id, UpdateOp::VecPush, tag, None, Some(x), EditView::Push(x));
    lemma_hit_bounds(
        theirs.nodes[id].schema->Record_0,
        tag,
        theirs.nodes[id].schema->Record_0.len(),
    );
}

/// After `member_vec_insert` with the index `at` and the item `x`, the list
/// under the tag is the list that it was with `x` at that index, on the
/// server and on every client that was in step.
pub proof fn lemma_member_vec_insert(
    theirs: ContextView,
    mine: ContextView,
    id: u32,
    tag: Seq<char>,
    at: u32,
    x: ValueView,
    i: int,
    items: Seq<ValueView>,
)
    requires
        theirs.nodes[id].schema is Record,
        in_step(theirs, mine, id),
        member_update(
            theirs,
            id,
            UpdateOp::VecInsert,
            tag,
            Some(ValueView::Scalar(Scalar::U32(at))),
            Some(x),
        ) is Ok,
        target(theirs.nodes[id].schema, theirs.nodes[id].value, UpdateOp::VecInsert, tag)
            matches Ok(Some(t)) && t.index == i && t.value == ValueView::List(items),
    ensures
        at <= items.len(),
        value_sent(
            theirs,
            id,
            UpdateOp::VecInsert,
            tag,
            Some(ValueView::Scalar(Scalar::U32(at))),
            Some(x),
        ) == ValueView::Record(
            theirs.nodes[id].value->Record_0.update(i, ValueView::List(items.insert(at as int, x))),
        ),
        value_got(
            theirs,
            mine,
            id,
            UpdateOp::VecInsert,
            tag,
            Some(ValueView::Scalar(Scalar::U32(at))),
            Some(x),
        ) == value_sent(
            theirs,
            id,
            UpdateOp::VecInsert,
            tag,
            Some(ValueView::Scalar(Scalar::U32(at))),
            Some(x),
        ),
{
    let key = Some(ValueView::Scalar(Scalar::U32(at)));
    lemma_member_changed(
        theirs,
        mine,
        id,
        UpdateOp::VecInsert,
        tag,
        key,
        Some(x),
        EditView::Insert(at, x),
    );
    lemma_hit_bounds(
        theirs.nodes[id].schema->Record_0,
        tag,
        theirs.nodes[id].schema->Record_0.len(),
    );
}

/// After `member_vec_remove` with the index `at`, the list under the tag is
/// the list that it was without the item at that index, on the server and on
/// every client that was in step.
pub proof fn lemma_member_vec_remove(
    theirs: ContextView,
    mine: ContextView,
    id: u32,
    tag: Seq<char>,
    at: u32,
    i: int,
    items: Seq<ValueView>,
)
    requires
        theirs.nodes[id].schema is Record,
        in_step(theirs, mine, id),
        member_update(
            theirs,
            id,
            UpdateOp::VecRemove,
            tag,
            Some(ValueView::Scalar(Scalar::U32(at))),
            None,
        ) is Ok,
        target(theirs.nodes[id].schema, theirs.nodes[id].value, UpdateOp::VecRemove, tag)
            matches Ok(Some(t)) && t.index == i && t.value == ValueView::List(items),
    ensures
        at < items.len(),
        value_sent(
            theirs,
            id,
            UpdateOp::VecRemove,
            tag,
            Some(ValueView::Scalar(Scalar::U32(at))),
            None,
        ) == ValueView::Record(
            theirs.nodes[id].value->Record_0.update(i, ValueView::List(items.remove(at as int))),
        ),
        value_got(
            theirs,
            mine,
            id,
            UpdateOp::VecRemove,
            tag,
            Some(ValueView::Scalar(Scalar::U32(at))),
            None,
        ) == value_sent(
            theirs,
            id,
            UpdateOp::VecRemove,
            tag,
            Some(ValueView::Scalar(Scalar::U32(at))),
            None,
        ),
{
    let key = Some(ValueView::Scalar(Scalar::U32(at)));
    lemma_member_changed(theirs, mine, id, UpdateOp::VecRemove, tag, key, None, EditView::Remove(at));
    lemma_hit_bounds(
        theirs.nodes[id].schema->Record_0,
        tag,
        theirs.nodes[id].schema->Record_0.len(),
    );
}

/// After `member_vec_clear`, the list under the tag is empty, on the server
/// and on every client that was in step.
pub proof fn lemma_member_vec_clear(
    theirs: ContextView,
    mine: ContextView,
    id: u32,
    tag: Seq<char>,
    i: int,
    items: Seq<ValueView>,
)
    requires
        theirs.nodes[id].schema is Record,
        in_step(theirs, mine, id),
        member_update(theirs, id, UpdateOp::VecClear, tag, None, None) is Ok,
        target(theirs.nodes[id].schema, theirs.nodes[id].value, UpdateOp::VecClear, tag)
            matches Ok(Some(t)) && t.index == i && t.value == ValueView::List(items),
    ensures
        value_sent(theirs, id, UpdateOp::VecClear, tag, None, None) == ValueView::Record(
            theirs.nodes[id].value->Record_0.update(i, ValueView::List(Seq::empty())),
        ),
        value_got(theirs, mine, id, UpdateOp::VecClear, tag, None, None) == value_sent(
            theirs,
            id,
            UpdateOp::VecClear,
            tag,
            None,
            None,
        ),
{
    lemma_member_changed(theirs, mine, id, UpdateOp::VecClear, tag, None, None, EditView::Clear);
    lemma_hit_bounds(
        theirs.nodes[id].schema->Record_0,
        tag,
        theirs.nodes[id].schema->Record_0.len(),
    );
}

/// After `member_map_insert`, `member_map_remove` or `member_map_clear`, the
/// mapping under the tag is the mapping that it was with the key given its
/// value, without the key, or without any key, on the server and on every
/// client that was in step.
pub proof fn lemma_member_map(
    theirs: ContextView,
    mine: ContextView,
    id: u32,
    op: UpdateOp,
    tag: Seq<char>,
    key: Option<ValueView>,
    val: Option<ValueView>,
    i: int,
    entries: Seq<(ValueView, ValueView)>,
)
    requires
        theirs.nodes[id].schema is Record,
        in_step(theirs, mine, id),
        member_update(theirs, id, op, tag, key, val) is Ok,
        op == UpdateOp::MapInsert || op == UpdateOp::MapRemove || op == UpdateOp::MapClear,
        target(theirs.nodes[id].schema, theirs.nodes[id].value, op, tag) matches Ok(Some(t))
            && t.index == i && t.value == ValueView::Dict(entries),
    ensures
        value_sent(theirs, id, op, tag, key, val) == ValueView::Record(
            theirs.nodes[id].value->Record_0.update(
                i,
                ValueView::Dict(
                    if op == UpdateOp::MapInsert {
                        dict_put(entries, key->Some_0, val->Some_0)
                    } else if op == UpdateOp::MapRemove {
                        dict_cut(entries, key->Some_0)
                    } else {
                        Seq::empty()
                    },
                ),
            ),
        ),
        value_got(theirs, mine, id, op, tag, key, val) == value_sent(
            theirs,
            id,
            op,
            tag,
            key,
            val,
        ),
{
    lemma_member_in_step(theirs, mine, id, op, tag, key, val);
    lemma_below_same(theirs.nodes, id);
    lemma_hit_bounds(
        theirs.nodes[id].schema->Record_0,
        tag,
        theirs.nodes[id].schema->Record_0.len(),
    );
}

/// A packet that was written arrives whole: what has arrived holds it, and
/// after it what the bytes that follow hold.
pub proof fn lemma_packet_arrives(p: PacketView, rest: Seq<u8>)
    requires
        p.magic == PACKET_MAGIC,
        p.data.len() <= u32::MAX,
    ensures
        drained(<Packet as ToStream>::wire(p) + rest) == (Drained {
            packets: seq![p] + drained(rest).packets,
            ..drained(rest)
        }),
{
    let all = <Packet as ToStream>::wire(p) + rest;
    <Packet as FromStream>::lemma_round_trip(p, rest);
    let used = <Packet as ToStream>::wire(p).len() as int;
    assert(used >= 8);
    assert(all.skip(used) =~= rest);
}

/// A packet with the wrong constant is not passed on: what has arrived
/// holds no packet, and the connection is to die.
pub proof fn lemma_packet_refused(p: PacketView, rest: Seq<u8>)
    requires
        p.magic != PACKET_MAGIC,
        p.data.len() <= u32::MAX,
    ensures
        drained(<Packet as ToStream>::wire(p) + rest) == (Drained {
            packets: Seq::empty(),
            left: rest,
            corrupt: true,
        }),
{
    let all = <Packet as ToStream>::wire(p) + rest;
    <Packet as FromStream>::lemma_round_trip(p, rest);
    let used = <Packet as ToStream>::wire(p).len() as int;
    assert(all.skip(used) =~= rest);
}

/// A live connection that is fed a packet with the wrong constant is dead
/// afterwards, and no packet has joined those that wait to be received.
pub proof fn lemma_corrupt_fed(before: ConnectionView, after: ConnectionView, p: PacketView)
    requires
        before.alive,
        before.pending.len() == 0,
        p.magic != PACKET_MAGIC,
        p.data.len() <= u32::MAX,
        fed(before, after, <Packet as ToStream>::wire(p)),
    ensures
        !after.alive,
        after.err == Some(Fault::Violation),
        after.inbox == before.inbox,
{
    let bytes = <Packet as ToStream>::wire(p);
    lemma_packet_refused(p, Seq::empty());
    assert(bytes + Seq::<u8>::empty() =~= bytes);
    assert(before.pending + bytes =~= bytes);
    assert(before.inbox + Seq::<PacketView>::empty() =~= before.inbox);
}

/// The clients that a server keeps when it has served their packets are
/// alive: a client whose connection is dead is let go, and so is one whose
/// packet was refused.
pub proof fn lemma_survivors_alive(
    g: Graph,
    tables: Seq<TableView>,
    clients: Seq<PeerView>,
    n: nat,
    k: int,
)
    requires
        n <= clients.len(),
        0 <= k < survivors(g, tables, clients, n).len(),
    ensures
        survivors(g, tables, clients, n)[k].conn.alive,
        exists|j: int|
            0 <= j < n && clients[j].conn.alive && survivors(g, tables, clients, n)[k]
                == #[trigger] peer_served(g, tables, clients[j]),
    decreases n,
{
    if n > 0 {
        let before = survivors(g, tables, clients, (n - 1) as nat);
        let p = peer_served(g, tables, clients[n - 1]);
        if k < before.len() {
            lemma_survivors_alive(g, tables, clients, (n - 1) as nat, k);
            let j = choose|j: int|
                0 <= j < n - 1 && clients[j].conn.alive && before[k] == #[trigger] peer_served(
                    g,
                    tables,
                    clients[j],
                );
            assert(0 <= j < n && clients[j].conn.alive && survivors(g, tables, clients, n)[k]
                == peer_served(g, tables, clients[j]));
        } else {
            assert(p.conn.alive);
            assert(survivors(g, tables, clients, n)[k] == peer_served(g, tables, clients[n - 1]));
        }
    }
}

/// A live connection with nothing half-read that is fed the bytes of one
/// packet has that packet as the last of those that wait to be received.
pub proof fn lemma_packet_fed(before: ConnectionView, p: PacketView)
    requires
        before.alive,
        before.pending.len() == 0,
        p.magic == PACKET_MAGIC,
        p.data.len() <= u32::MAX,
    ensures
        fed(
            before,
            ConnectionView { inbox: before.inbox.push(p), ..before },
            <Packet as ToStream>::wire(p),
        ),
{
    let bytes = <Packet as ToStream>::wire(p);
    lemma_packet_arrives(p, Seq::empty());
    assert(bytes + Seq::<u8>::empty() =~= bytes);
    assert(before.pending + bytes =~= bytes);
    assert(drained(Seq::<u8>::empty()) == (Drained {
        packets: Seq::empty(),
        left: Seq::empty(),
        corrupt: false,
    }));
    assert(seq![p] + Seq::<PacketView>::empty() =~= seq![p]);
    assert(before.inbox + seq![p] =~= before.inbox.push(p));
    assert(before.pending =~= Seq::<u8>::empty());
}

/// The packet that greets a client whose root is the node `root`, a node of
/// the shape `s` among the server's nodes `g`.
pub open spec fn greeting_packet(g: Graph, s: SchemaView, root: u32) -> PacketView {
    PacketView {
        node: root,
        magic: PACKET_MAGIC,
        data: wire(g, SchemaView::Node(Box::new(s)), ValueView::Node(root)),
    }
}

/// Replication: a client that starts from the packet which greets it holds
/// just the nodes that the server's root reaches, the root among them, each
/// with the shape and the value that it has on the server.
pub proof fn lemma_greeted(g: Graph, s: SchemaView, root: u32, conn: usize)
    requires
        typed(g, SchemaView::Node(Box::new(s)), ValueView::Node(root)),
    ensures
        greeting(g, s, root) == <Packet as ToStream>::wire(greeting_packet(g, s, root)),
        started(greeting_packet(g, s, root), conn, s) is Ok,
        forall|x: u32|
            #![trigger started(greeting_packet(g, s, root), conn, s)->Ok_0.contains_key(x)]
            started(greeting_packet(g, s, root), conn, s)->Ok_0.contains_key(x) <==> reach(
                g,
                SchemaView::Node(Box::new(s)),
                ValueView::Node(root),
            ).contains(x),
        forall|x: u32|
            #![trigger started(greeting_packet(g, s, root), conn, s)->Ok_0[x]]
            reach(g, SchemaView::Node(Box::new(s)), ValueView::Node(root)).contains(x) ==> started(
                greeting_packet(g, s, root),
                conn,
                s,
            )->Ok_0[x].schema == g[x].schema && started(
                greeting_packet(g, s, root),
                conn,
                s,
            )->Ok_0[x].value == g[x].value,
{
    let sn = SchemaView::Node(Box::new(s));
    let vn = ValueView::Node(root);
    let p = greeting_packet(g, s, root);
    let none = Map::<u32, NodeView>::empty();
    lemma_round_trip(g, none, Role::Client, sn, vn, Seq::empty());
    assert(wire(g, sn, vn) + Seq::<u8>::empty() =~= wire(g, sn, vn));
    let got = replica(g, none, Role::Client, reach(g, sn, vn));
    assert(reach(g, sn, vn).contains(root));
    assert(got.contains_key(root));
    let rooted = got.insert(
        root,
        NodeView { root: Some(conn), conns: got[root].conns.insert(conn), ..got[root] },
    );
    lemma_below_same(rooted, root);
    let h = adopted(rooted, root);
    assert(started(p, conn, s) == Ok::<Graph, Fault>(h));
    assert forall|x: u32| #![trigger h.contains_key(x)] h.contains_key(x) <==> reach(
        g,
        sn,
        vn,
    ).contains(x) by {
        assert(rooted.contains_key(x) <==> h.contains_key(x));
    }
    assert forall|x: u32| #![trigger h[x]] reach(g, sn, vn).contains(x) implies h[x].schema
        == g[x].schema && h[x].value == g[x].value by {
        assert(rooted.contains_key(x));
    }
}

} // verus!
