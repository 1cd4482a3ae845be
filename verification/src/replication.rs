//! What a reader ends up with when it reads what a writer wrote.
//!
//! The writer walks a value in the nodes of one endpoint; the reader stores
//! what arrives in the nodes of another. The laws here say that the reader
//! then holds the same value, and for every node that the value reaches the
//! same value as the writer's node.

use crate::encode::{be_u32, count_of};
use crate::encode::{lemma_be_u32_round_trip, lemma_be_u64_round_trip, FromStream};
use crate::node::{fresh_node, Graph, NodeView, Role};
use crate::value::{dict_put, distinct_keys, key_index, lemma_key_index};
use crate::value::{FieldView, Scalar, SchemaView, ValueView};
use crate::visitor::deserializer::{parse, parse_entries, parse_items, parse_row};
use crate::visitor::deserializer::{scalar_parse, store, Read, ReadEntries, ReadRow};
use crate::visitor::serializer::{lemma_typed_dict, lemma_typed_list, lemma_typed_row};
use crate::visitor::serializer::{scalar_ok, scalar_wire, typed, typed_row};
use crate::visitor::serializer::{wire, wire_entries, wire_items, wire_row};
use crate::visitor::updater::{applied, applied_used, changed, edit_is, edit_parse};
use crate::visitor::updater::{edit_typed, edit_wire};
use crate::visitor::updater::{intended, put_back, sent_update, target, whole};
use crate::visitor::updater::{EditView, ReadEdit, UpdateOp};
use crate::Fault;
use vstd::prelude::*;

verus! {

/// The ids of the nodes that `v`, a value of the shape `s`, refers to,
/// directly or through the values of other nodes of `g`.
pub open spec fn reach(g: Graph, s: SchemaView, v: ValueView) -> Set<u32>
    decreases s, 1nat, 0nat,
{
    match (s, v) {
        (SchemaView::List(e), ValueView::List(items)) => reach_items(g, *e, items, items.len()),
        (SchemaView::Dict(_, _), ValueView::Dict(entries)) => reach_entries(
            g,
            s,
            entries,
            entries.len(),
        ),
        (SchemaView::Maybe(e), ValueView::Maybe(Some(inner))) => reach(g, *e, *inner),
        (SchemaView::Record(fields), ValueView::Record(members)) => reach_row(
            g,
            fields,
            members,
            fields.len(),
        ),
        (SchemaView::Choice(variants), ValueView::Choice(tag, members)) => if tag
            < variants.len() {
            reach_row(g, variants[tag as int], members, variants[tag as int].len())
        } else {
            Set::empty()
        },
        (SchemaView::Node(inner), ValueView::Node(id)) => (if g.contains_key(id) {
            reach(g, *inner, g[id].value)
        } else {
            Set::empty()
        }).insert(id),
        _ => Set::empty(),
    }
}

/// The ids that the first `n` of `items` reach.
pub open spec fn reach_items(g: Graph, e: SchemaView, items: Seq<ValueView>, n: nat) -> Set<u32>
    decreases e, 2nat, n,
{
    if n == 0 {
        Set::empty()
    } else {
        reach_items(g, e, items, (n - 1) as nat).union(reach(g, e, items[n - 1]))
    }
}

/// The ids that the first `n` of `entries` reach.
pub open spec fn reach_entries(
    g: Graph,
    s: SchemaView,
    entries: Seq<(ValueView, ValueView)>,
    n: nat,
) -> Set<u32>
    decreases s, 0nat, n,
{
    match s {
        SchemaView::Dict(k, w) => if n == 0 {
            Set::empty()
        } else {
            reach_entries(g, s, entries, (n - 1) as nat).union(
                reach(g, *k, entries[n - 1].0).union(reach(g, *w, entries[n - 1].1)),
            )
        },
        _ => Set::empty(),
    }
}

/// The ids that the first `n` of `members` reach.
pub open spec fn reach_row(g: Graph, fields: Seq<FieldView>, members: Seq<ValueView>, n: nat) -> Set<
    u32,
>
    decreases fields, 0nat, n,
{
    if n == 0 || n > fields.len() {
        Set::empty()
    } else {
        reach_row(g, fields, members, (n - 1) as nat).union(
            reach(g, fields[n - 1].ty, members[n - 1]),
        )
    }
}

/// The nodes of a reader that started with `mine` and has received the nodes
/// `ids` of `theirs`: each of those has the writer's value, in a node that
/// kept everything else if it was there before and is new if it was not. No
/// other node has changed.
pub open spec fn replica(theirs: Graph, mine: Graph, role: Role, ids: Set<u32>) -> Graph {
    Map::new(
        |id: u32| mine.contains_key(id) || ids.contains(id),
        |id: u32|
            if ids.contains(id) {
                if mine.contains_key(id) {
                    NodeView { value: theirs[id].value, ..mine[id] }
                } else {
                    fresh_node(id, role, theirs[id].schema, theirs[id].value)
                }
            } else {
                mine[id]
            },
    )
}

/// Whether the nodes that both endpoints hold under one id have one shape.
pub open spec fn compatible(mine: Graph, theirs: Graph) -> bool {
    forall|id: u32|
        #![trigger mine.contains_key(id)]
        #![trigger theirs.contains_key(id)]
        mine.contains_key(id) && theirs.contains_key(id) ==> mine[id].schema == theirs[id].schema
}

/// Receiving more nodes after some is receiving all of them.
pub proof fn lemma_replica_twice(theirs: Graph, mine: Graph, role: Role, a: Set<u32>, b: Set<u32>)
    ensures
        replica(theirs, replica(theirs, mine, role, a), role, b) == replica(
            theirs,
            mine,
            role,
            a.union(b),
        ),
        replica(theirs, mine, role, Set::empty()) == mine,
        compatible(mine, theirs) ==> compatible(replica(theirs, mine, role, a), theirs),
{
    assert(replica(theirs, replica(theirs, mine, role, a), role, b) =~= replica(
        theirs,
        mine,
        role,
        a.union(b),
    ));
    assert(replica(theirs, mine, role, Set::empty()) =~= mine);
}

/// The bytes of the first `m` items are the front of the bytes of the first
/// `n`, for `n` beyond `m`.
pub proof fn lemma_wire_items_prefix(g: Graph, e: SchemaView, items: Seq<ValueView>, m: nat, n: nat)
    requires
        m <= n,
    ensures
        wire_items(g, e, items, m).len() <= wire_items(g, e, items, n).len(),
        wire_items(g, e, items, n) == wire_items(g, e, items, m) + wire_items(g, e, items, n).skip(
            wire_items(g, e, items, m).len() as int,
        ),
    decreases n - m,
{
    let wm = wire_items(g, e, items, m);
    let wn = wire_items(g, e, items, n);
    if m == n {
        assert(wn =~= wm + wn.skip(wm.len() as int));
    } else {
        lemma_wire_items_prefix(g, e, items, m, (n - 1) as nat);
        let wp = wire_items(g, e, items, (n - 1) as nat);
        assert(wn == wp + wire(g, e, items[n - 1]));
        assert(wn =~= wm + wn.skip(wm.len() as int));
    }
}

/// The bytes of the first `m` entries are the front of the bytes of the
/// first `n`, for `n` beyond `m`.
pub proof fn lemma_wire_entries_prefix(
    g: Graph,
    s: SchemaView,
    entries: Seq<(ValueView, ValueView)>,
    m: nat,
    n: nat,
)
    requires
        m <= n,
        s is Dict,
    ensures
        wire_entries(g, s, entries, m).len() <= wire_entries(g, s, entries, n).len(),
        wire_entries(g, s, entries, n) == wire_entries(g, s, entries, m) + wire_entries(
            g,
            s,
            entries,
            n,
        ).skip(wire_entries(g, s, entries, m).len() as int),
    decreases n - m,
{
    let wm = wire_entries(g, s, entries, m);
    let wn = wire_entries(g, s, entries, n);
    if m == n {
        assert(wn =~= wm + wn.skip(wm.len() as int));
    } else {
        lemma_wire_entries_prefix(g, s, entries, m, (n - 1) as nat);
        let wp = wire_entries(g, s, entries, (n - 1) as nat);
        assert(wn == wp + (wire(g, *s->Dict_0, entries[n - 1].0) + wire(
            g,
            *s->Dict_1,
            entries[n - 1].1,
        )));
        assert(wn =~= wm + wn.skip(wm.len() as int));
    }
}

/// The bytes of the first `m` members are the front of the bytes of the
/// first `n`, for `n` beyond `m`.
pub proof fn lemma_wire_row_prefix(
    g: Graph,
    fields: Seq<FieldView>,
    members: Seq<ValueView>,
    m: nat,
    n: nat,
)
    requires
        m <= n <= fields.len(),
    ensures
        wire_row(g, fields, members, m).len() <= wire_row(g, fields, members, n).len(),
        wire_row(g, fields, members, n) == wire_row(g, fields, members, m) + wire_row(
            g,
            fields,
            members,
            n,
        ).skip(wire_row(g, fields, members, m).len() as int),
    decreases n - m,
{
    let wm = wire_row(g, fields, members, m);
    let wn = wire_row(g, fields, members, n);
    if m == n {
        assert(wn =~= wm + wn.skip(wm.len() as int));
    } else {
        lemma_wire_row_prefix(g, fields, members, m, (n - 1) as nat);
        let wp = wire_row(g, fields, members, (n - 1) as nat);
        assert(wn == wp + wire(g, fields[n - 1].ty, members[n - 1]));
        assert(wn =~= wm + wn.skip(wm.len() as int));
    }
}

/// Where a piece `w` stands in `all` between the places `from` and `to`,
/// what follows `from` is the piece and then what follows `to`.
proof fn lemma_piece(all: Seq<u8>, done: Seq<u8>, w: Seq<u8>, later: Seq<u8>)
    requires
        all == (done + w) + later,
    ensures
        all.skip(done.len() as int) == w + later,
        all.skip((done + w).len() as int) == later,
        (done + w).len() == done.len() + w.len(),
{
    assert(all.skip(done.len() as int) =~= w + later);
    assert(all.skip((done + w).len() as int) =~= later);
}

/// Reading back a fixed-width value gives the value.
pub proof fn lemma_scalar_round_trip(x: Scalar, rest: Seq<u8>)
    requires
        scalar_ok(x),
    ensures
        scalar_parse(x.kind(), scalar_wire(x) + rest) == Ok::<(Scalar, int), Fault>(
            (x, scalar_wire(x).len() as int),
        ),
{
    match x {
        Scalar::U8(n) => {
            <u8 as FromStream>::lemma_round_trip(n, rest);
        },
        Scalar::I8(n) => {
            <i8 as FromStream>::lemma_round_trip(n, rest);
        },
        Scalar::U16(n) => {
            <u16 as FromStream>::lemma_round_trip(n, rest);
        },
        Scalar::I16(n) => {
            <i16 as FromStream>::lemma_round_trip(n, rest);
        },
        Scalar::U32(n) => {
            <u32 as FromStream>::lemma_round_trip(n, rest);
        },
        Scalar::I32(n) => {
            <i32 as FromStream>::lemma_round_trip(n, rest);
        },
        Scalar::U64(n) => {
            <u64 as FromStream>::lemma_round_trip(n, rest);
        },
        Scalar::I64(n) => {
            <i64 as FromStream>::lemma_round_trip(n, rest);
        },
        Scalar::F32(n) => {
            <u32 as FromStream>::lemma_round_trip(n, rest);
        },
        Scalar::F64(n) => {
            <u64 as FromStream>::lemma_round_trip(n, rest);
        },
        Scalar::Bool(b) => {
            <bool as FromStream>::lemma_round_trip(b, rest);
        },
        Scalar::Duration(secs, nanos) => {
            lemma_duration_round_trip(secs, nanos, rest);
        },
    }
}

/// Reading back a span of time gives the span.
proof fn lemma_duration_round_trip(secs: u64, nanos: u32, rest: Seq<u8>)
    requires
        nanos < crate::visitor::serializer::NANOS_PER_SEC,
    ensures
        scalar_parse(
            crate::value::Kind::Duration,
            scalar_wire(Scalar::Duration(secs, nanos)) + rest,
        ) == Ok::<(Scalar, int), Fault>(
            (Scalar::Duration(secs, nanos), scalar_wire(Scalar::Duration(secs, nanos)).len() as int),
        ),
{
    let all = scalar_wire(Scalar::Duration(secs, nanos)) + rest;
    lemma_be_u64_round_trip(secs, be_u32(nanos) + rest);
    lemma_be_u32_round_trip(nanos, rest);
    assert(all =~= crate::encode::be_u64(secs) + (be_u32(nanos) + rest));
    assert(all.skip(8) =~= be_u32(nanos) + rest);
    assert(<u64 as FromStream>::parse(all) == Ok::<(u64, int), crate::encode::Malformed>(
        (secs, 8),
    ));
    assert(<u32 as FromStream>::parse(all.skip(8)) == Ok::<(u32, int), crate::encode::Malformed>(
        (nanos, 4),
    ));
    assert(nanos as int / 1_000_000_000 == 0);
    assert(nanos as int % 1_000_000_000 == nanos);
}

/// Reading the items from the `m`-th on, after the first `m` have been
/// received, ends with all `n` received.
pub proof fn lemma_items_round_trip(
    theirs: Graph,
    mine: Graph,
    role: Role,
    e: SchemaView,
    items: Seq<ValueView>,
    m: nat,
    n: nat,
    rest: Seq<u8>,
)
    requires
        m <= n <= items.len(),
        forall|i: int| 0 <= i < n ==> typed(theirs, e, #[trigger] items[i]),
        compatible(mine, theirs),
    ensures
        parse_items(
            replica(theirs, mine, role, reach_items(theirs, e, items, m)),
            role,
            e,
            wire_items(theirs, e, items, n) + rest,
            wire_items(theirs, e, items, m).len() as int,
            (n - m) as nat,
            items.take(m as int),
        ) == Ok::<ReadRow, Fault>(
            ReadRow {
                graph: replica(theirs, mine, role, reach_items(theirs, e, items, n)),
                values: items.take(n as int),
                end: wire_items(theirs, e, items, n).len() as int,
            },
        ),
    decreases e, 3nat, n - m,
{
    if m < n {
        let all = wire_items(theirs, e, items, n) + rest;
        let done = wire_items(theirs, e, items, m);
        let w = wire(theirs, e, items[m as int]);
        let next = wire_items(theirs, e, items, m + 1);
        assert(next == done + w);
        lemma_wire_items_prefix(theirs, e, items, m + 1, n);
        let later = wire_items(theirs, e, items, n).skip(next.len() as int) + rest;
        assert(all =~= (done + w) + later);
        lemma_piece(all, done, w, later);
        let before = replica(theirs, mine, role, reach_items(theirs, e, items, m));
        lemma_replica_twice(
            theirs,
            mine,
            role,
            reach_items(theirs, e, items, m),
            reach(theirs, e, items[m as int]),
        );
        lemma_round_trip(theirs, before, role, e, items[m as int], later);
        assert(items.take(m as int).push(items[m as int]) =~= items.take(m as int + 1));
        lemma_items_round_trip(theirs, mine, role, e, items, m + 1, n, rest);
    }
}

/// Reading the entries from the `m`-th on, after the first `m` have been
/// received, ends with all `n` received.
pub proof fn lemma_entries_round_trip(
    theirs: Graph,
    mine: Graph,
    role: Role,
    s: SchemaView,
    entries: Seq<(ValueView, ValueView)>,
    m: nat,
    n: nat,
    rest: Seq<u8>,
)
    requires
        s is Dict,
        m <= n <= entries.len(),
        distinct_keys(entries),
        forall|i: int|
            0 <= i < n ==> typed(theirs, *s->Dict_0, (#[trigger] entries[i]).0) && typed(
                theirs,
                *s->Dict_1,
                entries[i].1,
            ),
        compatible(mine, theirs),
    ensures
        parse_entries(
            replica(theirs, mine, role, reach_entries(theirs, s, entries, m)),
            role,
            s,
            wire_entries(theirs, s, entries, n) + rest,
            wire_entries(theirs, s, entries, m).len() as int,
            (n - m) as nat,
            entries.take(m as int),
        ) == Ok::<ReadEntries, Fault>(
            ReadEntries {
                graph: replica(theirs, mine, role, reach_entries(theirs, s, entries, n)),
                entries: entries.take(n as int),
                end: wire_entries(theirs, s, entries, n).len() as int,
            },
        ),
    decreases s, 0nat, n - m,
{
    if m < n {
        let k = *s->Dict_0;
        let w = *s->Dict_1;
        let all = wire_entries(theirs, s, entries, n) + rest;
        let done = wire_entries(theirs, s, entries, m);
        let wk = wire(theirs, k, entries[m as int].0);
        let wv = wire(theirs, w, entries[m as int].1);
        let next = wire_entries(theirs, s, entries, m + 1);
        assert(next == done + (wk + wv));
        lemma_wire_entries_prefix(theirs, s, entries, m + 1, n);
        let later = wire_entries(theirs, s, entries, n).skip(next.len() as int) + rest;
        assert(all =~= (done + wk) + (wv + later));
        lemma_piece(all, done, wk, wv + later);
        assert(all =~= ((done + wk) + wv) + later);
        lemma_piece(all, done + wk, wv, later);
        let r0 = reach_entries(theirs, s, entries, m);
        let rk = reach(theirs, k, entries[m as int].0);
        let rv = reach(theirs, w, entries[m as int].1);
        let before = replica(theirs, mine, role, r0);
        lemma_replica_twice(theirs, mine, role, r0, rk);
        lemma_round_trip(theirs, before, role, k, entries[m as int].0, wv + later);
        let between = replica(theirs, mine, role, r0.union(rk));
        lemma_replica_twice(theirs, mine, role, r0.union(rk), rv);
        lemma_round_trip(theirs, between, role, w, entries[m as int].1, later);
        assert(r0.union(rk).union(rv) =~= r0.union(rk.union(rv)));
        let acc = entries.take(m as int);
        lemma_key_index(acc, entries[m as int].0, acc.len());
        assert(key_index(acc, entries[m as int].0, acc.len()) is None) by {
            if key_index(acc, entries[m as int].0, acc.len()) is Some {
                let i = key_index(acc, entries[m as int].0, acc.len())->Some_0;
                assert(acc[i] == entries[i]);
                assert(entries[i].0 != entries[m as int].0);
            }
        }
        assert(dict_put(acc, entries[m as int].0, entries[m as int].1) =~= entries.take(m as int + 1));
        assert((done + wk).len() + wv.len() == next.len());
        lemma_entries_round_trip(theirs, mine, role, s, entries, m + 1, n, rest);
    }
}

/// Reading the members from the `i`-th on, after the first `i` have been
/// received, ends with all of them received.
pub proof fn lemma_row_round_trip(
    theirs: Graph,
    mine: Graph,
    role: Role,
    fields: Seq<FieldView>,
    members: Seq<ValueView>,
    i: nat,
    rest: Seq<u8>,
)
    requires
        i <= fields.len(),
        typed_row(theirs, fields, members),
        compatible(mine, theirs),
    ensures
        parse_row(
            replica(theirs, mine, role, reach_row(theirs, fields, members, i)),
            role,
            fields,
            wire_row(theirs, fields, members, fields.len()) + rest,
            wire_row(theirs, fields, members, i).len() as int,
            i,
            members.take(i as int),
        ) == Ok::<ReadRow, Fault>(
            ReadRow {
                graph: replica(theirs, mine, role, reach_row(theirs, fields, members, fields.len())),
                values: members,
                end: wire_row(theirs, fields, members, fields.len()).len() as int,
            },
        ),
    decreases fields, 0nat, fields.len() - i,
{
    lemma_typed_row(theirs, fields, members);
    let n = fields.len();
    if i < n {
        let all = wire_row(theirs, fields, members, n) + rest;
        let done = wire_row(theirs, fields, members, i);
        let w = wire(theirs, fields[i as int].ty, members[i as int]);
        let next = wire_row(theirs, fields, members, i + 1);
        assert(next == done + w);
        lemma_wire_row_prefix(theirs, fields, members, i + 1, n);
        let later = wire_row(theirs, fields, members, n).skip(next.len() as int) + rest;
        assert(all =~= (done + w) + later);
        lemma_piece(all, done, w, later);
        let before = replica(theirs, mine, role, reach_row(theirs, fields, members, i));
        lemma_replica_twice(
            theirs,
            mine,
            role,
            reach_row(theirs, fields, members, i),
            reach(theirs, fields[i as int].ty, members[i as int]),
        );
        assert(typed(theirs, fields[i as int].ty, members[i as int]));
        lemma_round_trip(theirs, before, role, fields[i as int].ty, members[i as int], later);
        assert(members.take(i as int).push(members[i as int]) =~= members.take(i as int + 1));
        lemma_row_round_trip(theirs, mine, role, fields, members, i + 1, rest);
    } else {
        assert(members.take(i as int) =~= members);
    }
}

/// The law of `lemma_round_trip`, as a predicate.
pub open spec fn round_trips(
    theirs: Graph,
    mine: Graph,
    role: Role,
    s: SchemaView,
    v: ValueView,
    rest: Seq<u8>,
) -> bool {
    parse(mine, role, s, wire(theirs, s, v) + rest) == Ok::<Read, Fault>(
        Read {
            graph: replica(theirs, mine, role, reach(theirs, s, v)),
            value: v,
            used: wire(theirs, s, v).len() as int,
        },
    )
}

proof fn lemma_list_round_trip(
    theirs: Graph,
    mine: Graph,
    role: Role,
    s: SchemaView,
    v: ValueView,
    rest: Seq<u8>,
)
    requires
        s is List,
        typed(theirs, s, v),
        compatible(mine, theirs),
    ensures
        round_trips(theirs, mine, role, s, v, rest),
    decreases s, 1nat, 0nat,
{
    let all = wire(theirs, s, v) + rest;
    lemma_replica_twice(theirs, mine, role, Set::empty(), Set::empty());
    let e = *s->List_0;
    let items = v->List_0;
    lemma_typed_list(theirs, e, items);
    let n = count_of(items.len());
    let body = wire_items(theirs, e, items, items.len());
    lemma_be_u32_round_trip(n, body + rest);
    assert(all =~= be_u32(n) + (body + rest));
    assert(all.skip(4) =~= body + rest);
    lemma_items_round_trip(theirs, mine, role, e, items, 0, items.len(), rest);
    assert(items.take(0) =~= Seq::<ValueView>::empty());
    assert(items.take(items.len() as int) =~= items);
}

proof fn lemma_dict_round_trip(
    theirs: Graph,
    mine: Graph,
    role: Role,
    s: SchemaView,
    v: ValueView,
    rest: Seq<u8>,
)
    requires
        s is Dict,
        typed(theirs, s, v),
        compatible(mine, theirs),
    ensures
        round_trips(theirs, mine, role, s, v, rest),
    decreases s, 1nat, 0nat,
{
    let all = wire(theirs, s, v) + rest;
    lemma_replica_twice(theirs, mine, role, Set::empty(), Set::empty());
    let entries = v->Dict_0;
    lemma_typed_dict(theirs, *s->Dict_0, *s->Dict_1, entries);
    let n = count_of(entries.len());
    let body = wire_entries(theirs, s, entries, entries.len());
    lemma_be_u32_round_trip(n, body + rest);
    assert(all =~= be_u32(n) + (body + rest));
    assert(all.skip(4) =~= body + rest);
    lemma_entries_round_trip(theirs, mine, role, s, entries, 0, entries.len(), rest);
    assert(entries.take(0) =~= Seq::<(ValueView, ValueView)>::empty());
    assert(entries.take(entries.len() as int) =~= entries);
}

proof fn lemma_maybe_round_trip(
    theirs: Graph,
    mine: Graph,
    role: Role,
    s: SchemaView,
    v: ValueView,
    rest: Seq<u8>,
)
    requires
        s is Maybe,
        typed(theirs, s, v),
        compatible(mine, theirs),
    ensures
        round_trips(theirs, mine, role, s, v, rest),
    decreases s, 1nat, 0nat,
{
    let all = wire(theirs, s, v) + rest;
    lemma_replica_twice(theirs, mine, role, Set::empty(), Set::empty());
    let e = *s->Maybe_0;
    match v->Maybe_0 {
        Some(inner) => {
            let w = wire(theirs, e, *inner);
            assert(all =~= seq![1u8] + (w + rest));
            assert(all.skip(1) =~= w + rest);
            assert(all[0] == 1u8);
            lemma_round_trip(theirs, mine, role, e, *inner, rest);
        },
        None => {
            assert(all[0] == 0u8);
        },
    }
}

proof fn lemma_record_round_trip(
    theirs: Graph,
    mine: Graph,
    role: Role,
    s: SchemaView,
    v: ValueView,
    rest: Seq<u8>,
)
    requires
        s is Record,
        typed(theirs, s, v),
        compatible(mine, theirs),
    ensures
        round_trips(theirs, mine, role, s, v, rest),
    decreases s, 1nat, 0nat,
{
    let all = wire(theirs, s, v) + rest;
    lemma_replica_twice(theirs, mine, role, Set::empty(), Set::empty());
    let fields = s->Record_0;
    let members = v->Record_0;
    lemma_row_round_trip(theirs, mine, role, fields, members, 0, rest);
    assert(members.take(0) =~= Seq::<ValueView>::empty());
    assert(all.skip(0) =~= all);
}

proof fn lemma_choice_round_trip(
    theirs: Graph,
    mine: Graph,
    role: Role,
    s: SchemaView,
    v: ValueView,
    rest: Seq<u8>,
)
    requires
        s is Choice,
        typed(theirs, s, v),
        compatible(mine, theirs),
    ensures
        round_trips(theirs, mine, role, s, v, rest),
    decreases s, 1nat, 0nat,
{
    let all = wire(theirs, s, v) + rest;
    lemma_replica_twice(theirs, mine, role, Set::empty(), Set::empty());
    let variants = s->Choice_0;
    let tag = v->Choice_0;
    let members = v->Choice_1;
    let fields = variants[tag as int];
    let body = wire_row(theirs, fields, members, fields.len());
    assert(all =~= seq![tag] + (body + rest));
    assert(all.skip(1) =~= body + rest);
    assert(all[0] == tag);
    lemma_row_round_trip(theirs, mine, role, fields, members, 0, rest);
    assert(members.take(0) =~= Seq::<ValueView>::empty());
}

proof fn lemma_node_round_trip(
    theirs: Graph,
    mine: Graph,
    role: Role,
    s: SchemaView,
    v: ValueView,
    rest: Seq<u8>,
)
    requires
        s is Node,
        typed(theirs, s, v),
        compatible(mine, theirs),
    ensures
        round_trips(theirs, mine, role, s, v, rest),
    decreases s, 1nat, 0nat,
{
    let all = wire(theirs, s, v) + rest;
    let inner = *s->Node_0;
    let id = v->Node_0;
    let content = theirs[id].value;
    let w = wire(theirs, inner, content);
    lemma_be_u32_round_trip(id, w + rest);
    assert(all =~= be_u32(id) + (w + rest));
    assert(all.skip(4) =~= w + rest);
    lemma_round_trip(theirs, mine, role, inner, content, rest);
    let below = reach(theirs, inner, content);
    let after = replica(theirs, mine, role, below);
    lemma_replica_twice(theirs, mine, role, below, Set::empty());
    assert(store(after, role, id, inner, content) =~= replica(
        theirs,
        mine,
        role,
        below.insert(id),
    ));
}

/// Reading what was written gives the value back, and leaves the reader with
/// the writer's value in every node that the value reaches.
///
/// `theirs` are the writer's nodes and `v` a value of the shape `s` among
/// them; `mine` are the reader's nodes before, which agree with the writer's
/// on the shape of every node that both hold.
pub proof fn lemma_round_trip(
    theirs: Graph,
    mine: Graph,
    role: Role,
    s: SchemaView,
    v: ValueView,
    rest: Seq<u8>,
)
    requires
        typed(theirs, s, v),
        compatible(mine, theirs),
    ensures
        parse(mine, role, s, wire(theirs, s, v) + rest) == Ok::<Read, Fault>(
            Read {
                graph: replica(theirs, mine, role, reach(theirs, s, v)),
                value: v,
                used: wire(theirs, s, v).len() as int,
            },
        ),
    decreases s, 2nat, 0nat,
{
    match s {
        SchemaView::Scalar(_) => {
            lemma_replica_twice(theirs, mine, role, Set::empty(), Set::empty());
            lemma_scalar_round_trip(v->Scalar_0, rest);
        },
        SchemaView::Text => {
            lemma_replica_twice(theirs, mine, role, Set::empty(), Set::empty());
            <String as FromStream>::lemma_round_trip(v->Text_0, rest);
        },
        SchemaView::List(_) => {
            lemma_list_round_trip(theirs, mine, role, s, v, rest);
        },
        SchemaView::Dict(_, _) => {
            lemma_dict_round_trip(theirs, mine, role, s, v, rest);
        },
        SchemaView::Maybe(_) => {
            lemma_maybe_round_trip(theirs, mine, role, s, v, rest);
        },
        SchemaView::Record(_) => {
            lemma_record_round_trip(theirs, mine, role, s, v, rest);
        },
        SchemaView::Choice(_) => {
            lemma_choice_round_trip(theirs, mine, role, s, v, rest);
        },
        SchemaView::Node(_) => {
            lemma_node_round_trip(theirs, mine, role, s, v, rest);
        },
    }
}

/// The ids of the nodes that the values of a change reach.
pub open spec fn edit_reach(g: Graph, s: SchemaView, c: EditView) -> Set<u32> {
    match c {
        EditView::Assign(x) => reach(g, s, x),
        EditView::Push(x) => reach(g, *s->List_0, x),
        EditView::Insert(_, x) => reach(g, *s->List_0, x),
        EditView::Put(k, v) => reach(g, *s->Dict_0, k).union(reach(g, *s->Dict_1, v)),
        EditView::Cut(k) => reach(g, *s->Dict_0, k),
        _ => Set::empty(),
    }
}

/// The law of `lemma_edit_round_trip`, as a predicate.
pub open spec fn edit_round_trips(
    theirs: Graph,
    mine: Graph,
    role: Role,
    s: SchemaView,
    op: UpdateOp,
    c: EditView,
    rest: Seq<u8>,
) -> bool {
    edit_parse(mine, role, s, op, edit_wire(theirs, s, c) + rest) == Ok::<ReadEdit, Fault>(
        ReadEdit {
            graph: replica(theirs, mine, role, edit_reach(theirs, s, c)),
            edit: c,
            used: edit_wire(theirs, s, c).len() as int,
        },
    )
}

proof fn lemma_edit_one_value(
    theirs: Graph,
    mine: Graph,
    role: Role,
    s: SchemaView,
    op: UpdateOp,
    c: EditView,
    rest: Seq<u8>,
)
    requires
        edit_typed(theirs, s, c),
        edit_is(c, op),
        compatible(mine, theirs),
        c is Assign || c is Push || c is Cut,
    ensures
        edit_round_trips(theirs, mine, role, s, op, c, rest),
{
    match c {
        EditView::Assign(x) => {
            lemma_round_trip(theirs, mine, role, s, x, rest);
        },
        EditView::Push(x) => {
            lemma_round_trip(theirs, mine, role, *s->List_0, x, rest);
        },
        EditView::Cut(k) => {
            lemma_round_trip(theirs, mine, role, *s->Dict_0, k, rest);
        },
        _ => {},
    }
}

proof fn lemma_edit_insert(
    theirs: Graph,
    mine: Graph,
    role: Role,
    s: SchemaView,
    c: EditView,
    rest: Seq<u8>,
)
    requires
        edit_typed(theirs, s, c),
        compatible(mine, theirs),
        c is Insert,
    ensures
        edit_round_trips(theirs, mine, role, s, UpdateOp::VecInsert, c, rest),
{
    let all = edit_wire(theirs, s, c) + rest;
    let i = c->Insert_0;
    let x = c->Insert_1;
    let w = wire(theirs, *s->List_0, x);
    lemma_be_u32_round_trip(i, w + rest);
    assert(all =~= be_u32(i) + (w + rest));
    assert(all.skip(4) =~= w + rest);
    lemma_round_trip(theirs, mine, role, *s->List_0, x, rest);
}

proof fn lemma_edit_no_value(
    theirs: Graph,
    mine: Graph,
    role: Role,
    s: SchemaView,
    op: UpdateOp,
    c: EditView,
    rest: Seq<u8>,
)
    requires
        edit_typed(theirs, s, c),
        edit_is(c, op),
        c is Remove || c is Clear || c is Wipe,
    ensures
        edit_round_trips(theirs, mine, role, s, op, c, rest),
{
    lemma_replica_twice(theirs, mine, role, Set::empty(), Set::empty());
    match c {
        EditView::Remove(i) => {
            lemma_be_u32_round_trip(i, rest);
        },
        _ => {
            assert(edit_wire(theirs, s, c).len() == 0);
        },
    }
}

proof fn lemma_edit_put(
    theirs: Graph,
    mine: Graph,
    role: Role,
    s: SchemaView,
    c: EditView,
    rest: Seq<u8>,
)
    requires
        edit_typed(theirs, s, c),
        compatible(mine, theirs),
        c is Put,
    ensures
        edit_round_trips(theirs, mine, role, s, UpdateOp::MapInsert, c, rest),
{
    let all = edit_wire(theirs, s, c) + rest;
    let k = c->Put_0;
    let v = c->Put_1;
    let wk = wire(theirs, *s->Dict_0, k);
    let wv = wire(theirs, *s->Dict_1, v);
    assert(all =~= wk + (wv + rest));
    lemma_round_trip(theirs, mine, role, *s->Dict_0, k, wv + rest);
    let between = replica(theirs, mine, role, reach(theirs, *s->Dict_0, k));
    lemma_replica_twice(
        theirs,
        mine,
        role,
        reach(theirs, *s->Dict_0, k),
        reach(theirs, *s->Dict_1, v),
    );
    assert(all.skip(wk.len() as int) =~= wv + rest);
    lemma_round_trip(theirs, between, role, *s->Dict_1, v, rest);
}

/// The change that a client reads is the change that the server wrote, and
/// the client then holds the server's value in every node that the change
/// reaches.
pub proof fn lemma_edit_round_trip(
    theirs: Graph,
    mine: Graph,
    role: Role,
    s: SchemaView,
    op: UpdateOp,
    c: EditView,
    rest: Seq<u8>,
)
    requires
        edit_typed(theirs, s, c),
        edit_is(c, op),
        compatible(mine, theirs),
    ensures
        edit_parse(mine, role, s, op, edit_wire(theirs, s, c) + rest) == Ok::<ReadEdit, Fault>(
            ReadEdit {
                graph: replica(theirs, mine, role, edit_reach(theirs, s, c)),
                edit: c,
                used: edit_wire(theirs, s, c).len() as int,
            },
        ),
{
    match c {
        EditView::Assign(_) | EditView::Push(_) | EditView::Cut(_) => {
            lemma_edit_one_value(theirs, mine, role, s, op, c, rest);
        },
        EditView::Insert(_, _) => {
            lemma_edit_insert(theirs, mine, role, s, c, rest);
        },
        EditView::Put(_, _) => {
            lemma_edit_put(theirs, mine, role, s, c, rest);
        },
        _ => {
            lemma_edit_no_value(theirs, mine, role, s, op, c, rest);
        },
    }
}

/// A client that reads what the server wrote for a change makes the same
/// change to its own value, in the same place.
///
/// `server` is the server's value before the change and `client` the
/// client's; both have the shape `s`. Where no member has the tag, nothing
/// is written and the client changes nothing.
pub proof fn lemma_update_replays(
    theirs: Graph,
    mine: Graph,
    role: Role,
    s: SchemaView,
    server: ValueView,
    client: ValueView,
    op: UpdateOp,
    tag: Seq<char>,
    key: Option<ValueView>,
    val: Option<ValueView>,
    rest: Seq<u8>,
)
    requires
        sent_update(theirs, s, server, op, tag, key, val) is Ok,
        compatible(mine, theirs),
        !whole(s, op) ==> client is Record && client->Record_0.len() == server->Record_0.len(),
    ensures
        ({
            let payload = sent_update(theirs, s, server, op, tag, key, val)->Ok_0.0;
            match target(s, server, op, tag) {
                Ok(Some(t)) => {
                    let c = intended(op, t.value, key, val)->Some_0;
                    let mine_now = if t.index < 0 {
                        client
                    } else {
                        client->Record_0[t.index]
                    };
                    applied(mine, role, s, client, op, tag, payload + rest) == match changed(
                        mine_now,
                        c,
                    ) {
                        Ok(after) => Ok::<(Graph, ValueView), Fault>(
                            (
                                replica(theirs, mine, role, edit_reach(theirs, t.schema, c)),
                                put_back(client, t.index, after),
                            ),
                        ),
                        Err(f) => Err(f),
                    }
                },
                _ => applied(mine, role, s, client, op, tag, payload + rest) == Ok::<
                    (Graph, ValueView),
                    Fault,
                >((mine, client)),
            }
        }),
{
    match target(s, server, op, tag) {
        Ok(Some(t)) => {
            let c = intended(op, t.value, key, val)->Some_0;
            crate::visitor::updater::lemma_hit_bounds(s->Record_0, tag, s->Record_0.len());
            if whole(s, op) {
                lemma_edit_round_trip(theirs, mine, role, t.schema, op, c, rest);
            } else {
                assert(edit_is(c, op));
                lemma_edit_round_trip(theirs, mine, role, t.schema, op, c, rest);
            }
        },
        _ => {},
    }
}

/// A client that reads what the server wrote for a change reads all of it
/// and no more.
pub proof fn lemma_update_read_whole(
    theirs: Graph,
    mine: Graph,
    role: Role,
    s: SchemaView,
    server: ValueView,
    client: ValueView,
    op: UpdateOp,
    tag: Seq<char>,
    key: Option<ValueView>,
    val: Option<ValueView>,
    rest: Seq<u8>,
)
    requires
        sent_update(theirs, s, server, op, tag, key, val) is Ok,
        compatible(mine, theirs),
        !whole(s, op) ==> client is Record && client->Record_0.len() == server->Record_0.len(),
    ensures
        applied_used(
            mine,
            role,
            s,
            client,
            op,
            tag,
            sent_update(theirs, s, server, op, tag, key, val)->Ok_0.0 + rest,
        ) == sent_update(theirs, s, server, op, tag, key, val)->Ok_0.0.len(),
{
    match target(s, server, op, tag) {
        Ok(Some(t)) => {
            let c = intended(op, t.value, key, val)->Some_0;
            crate::visitor::updater::lemma_hit_bounds(s->Record_0, tag, s->Record_0.len());
            if whole(s, op) {
                lemma_edit_round_trip(theirs, mine, role, t.schema, op, c, rest);
            } else {
                assert(edit_is(c, op));
                lemma_edit_round_trip(theirs, mine, role, t.schema, op, c, rest);
            }
        },
        _ => {},
    }
}

/// A client whose value is the server's value before a change has the
/// server's value after it.
pub proof fn lemma_update_keeps_in_step(
    theirs: Graph,
    mine: Graph,
    role: Role,
    s: SchemaView,
    v: ValueView,
    op: UpdateOp,
    tag: Seq<char>,
    key: Option<ValueView>,
    val: Option<ValueView>,
    rest: Seq<u8>,
)
    requires
        sent_update(theirs, s, v, op, tag, key, val) is Ok,
        compatible(mine, theirs),
    ensures
        applied(
            mine,
            role,
            s,
            v,
            op,
            tag,
            sent_update(theirs, s, v, op, tag, key, val)->Ok_0.0 + rest,
        ) is Ok,
        applied(
            mine,
            role,
            s,
            v,
            op,
            tag,
            sent_update(theirs, s, v, op, tag, key, val)->Ok_0.0 + rest,
        )->Ok_0.1 == sent_update(theirs, s, v, op, tag, key, val)->Ok_0.1,
{
    if !whole(s, op) {
        assert(v is Record);
    }
    lemma_update_replays(theirs, mine, role, s, v, v, op, tag, key, val, rest);
    match target(s, v, op, tag) {
        Ok(Some(t)) => {
            let c = intended(op, t.value, key, val)->Some_0;
            crate::visitor::updater::lemma_hit_bounds(s->Record_0, tag, s->Record_0.len());
            assert(changed(t.value, c) is Ok);
            if t.index >= 0 {
                assert(v->Record_0[t.index] == t.value);
            }
        },
        _ => {},
    }
}

/// A change under a tag leaves every other member as it was.
pub proof fn lemma_update_spares_siblings(
    g: Graph,
    role: Role,
    s: SchemaView,
    v: ValueView,
    op: UpdateOp,
    tag: Seq<char>,
    bytes: Seq<u8>,
    j: int,
)
    requires
        !whole(s, op),
        applied(g, role, s, v, op, tag, bytes) is Ok,
        0 <= j < v->Record_0.len(),
        !(target(s, v, op, tag) matches Ok(Some(t)) && t.index == j),
    ensures
        applied(g, role, s, v, op, tag, bytes)->Ok_0.1 is Record,
        applied(g, role, s, v, op, tag, bytes)->Ok_0.1->Record_0.len() == v->Record_0.len(),
        applied(g, role, s, v, op, tag, bytes)->Ok_0.1->Record_0[j] == v->Record_0[j],
{
    crate::visitor::updater::lemma_hit_bounds(s->Record_0, tag, s->Record_0.len());
}

/// After an item has been pushed, a client whose list was the server's has
/// the server's list with the item at its end.
pub proof fn lemma_vec_push(
    theirs: Graph,
    mine: Graph,
    role: Role,
    e: SchemaView,
    items: Seq<ValueView>,
    x: ValueView,
    rest: Seq<u8>,
)
    requires
        typed(theirs, e, x),
        compatible(mine, theirs),
    ensures
        ({
            let s = SchemaView::List(Box::new(e));
            let c = EditView::Push(x);
            let got = edit_parse(mine, role, s, UpdateOp::VecPush, edit_wire(theirs, s, c) + rest);
            &&& changed(ValueView::List(items), c) == Ok::<ValueView, Fault>(
                ValueView::List(items.push(x)),
            )
            &&& got is Ok
            &&& changed(ValueView::List(items), got->Ok_0.edit) == Ok::<ValueView, Fault>(
                ValueView::List(items.push(x)),
            )
        }),
{
    let s = SchemaView::List(Box::new(e));
    lemma_edit_round_trip(theirs, mine, role, s, UpdateOp::VecPush, EditView::Push(x), rest);
}

/// After an item has been inserted at an index within the list, a client
/// whose list was the server's has the server's list with the item at that
/// index.
pub proof fn lemma_vec_insert(
    theirs: Graph,
    mine: Graph,
    role: Role,
    e: SchemaView,
    items: Seq<ValueView>,
    i: u32,
    x: ValueView,
    rest: Seq<u8>,
)
    requires
        typed(theirs, e, x),
        compatible(mine, theirs),
        i <= items.len(),
    ensures
        ({
            let s = SchemaView::List(Box::new(e));
            let c = EditView::Insert(i, x);
            let got = edit_parse(mine, role, s, UpdateOp::VecInsert, edit_wire(theirs, s, c) + rest);
            &&& changed(ValueView::List(items), c) == Ok::<ValueView, Fault>(
                ValueView::List(items.insert(i as int, x)),
            )
            &&& got is Ok
            &&& changed(ValueView::List(items), got->Ok_0.edit) == Ok::<ValueView, Fault>(
                ValueView::List(items.insert(i as int, x)),
            )
        }),
{
    let s = SchemaView::List(Box::new(e));
    lemma_edit_round_trip(theirs, mine, role, s, UpdateOp::VecInsert, EditView::Insert(i, x), rest);
}

/// After the item at an index within the list has been removed, a client
/// whose list was the server's has the server's list without that item.
pub proof fn lemma_vec_remove(
    theirs: Graph,
    mine: Graph,
    role: Role,
    e: SchemaView,
    items: Seq<ValueView>,
    i: u32,
    rest: Seq<u8>,
)
    requires
        compatible(mine, theirs),
        i < items.len(),
    ensures
        ({
            let s = SchemaView::List(Box::new(e));
            let c = EditView::Remove(i);
            let got = edit_parse(mine, role, s, UpdateOp::VecRemove, edit_wire(theirs, s, c) + rest);
            &&& changed(ValueView::List(items), c) == Ok::<ValueView, Fault>(
                ValueView::List(items.remove(i as int)),
            )
            &&& got is Ok
            &&& changed(ValueView::List(items), got->Ok_0.edit) == Ok::<ValueView, Fault>(
                ValueView::List(items.remove(i as int)),
            )
        }),
{
    let s = SchemaView::List(Box::new(e));
    lemma_edit_round_trip(theirs, mine, role, s, UpdateOp::VecRemove, EditView::Remove(i), rest);
}

/// After a list has been cleared, a client's list is empty as the server's
/// is.
pub proof fn lemma_vec_clear(
    theirs: Graph,
    mine: Graph,
    role: Role,
    e: SchemaView,
    items: Seq<ValueView>,
    rest: Seq<u8>,
)
    requires
        compatible(mine, theirs),
    ensures
        ({
            let s = SchemaView::List(Box::new(e));
            let c = EditView::Clear;
            let got = edit_parse(mine, role, s, UpdateOp::VecClear, edit_wire(theirs, s, c) + rest);
            &&& changed(ValueView::List(items), c) == Ok::<ValueView, Fault>(
                ValueView::List(Seq::empty()),
            )
            &&& got is Ok
            &&& changed(ValueView::List(items), got->Ok_0.edit) == Ok::<ValueView, Fault>(
                ValueView::List(Seq::empty()),
            )
        }),
{
    let s = SchemaView::List(Box::new(e));
    lemma_edit_round_trip(theirs, mine, role, s, UpdateOp::VecClear, EditView::Clear, rest);
}

/// After a key has been given a value, a client whose mapping was the
/// server's has the server's mapping: the key has the value, in the place
/// where it stood or at the end.
pub proof fn lemma_map_insert(
    theirs: Graph,
    mine: Graph,
    role: Role,
    ks: SchemaView,
    vs: SchemaView,
    entries: Seq<(ValueView, ValueView)>,
    k: ValueView,
    v: ValueView,
    rest: Seq<u8>,
)
    requires
        typed(theirs, ks, k),
        typed(theirs, vs, v),
        compatible(mine, theirs),
    ensures
        ({
            let s = SchemaView::Dict(Box::new(ks), Box::new(vs));
            let c = EditView::Put(k, v);
            let got = edit_parse(mine, role, s, UpdateOp::MapInsert, edit_wire(theirs, s, c) + rest);
            &&& changed(ValueView::Dict(entries), c) == Ok::<ValueView, Fault>(
                ValueView::Dict(dict_put(entries, k, v)),
            )
            &&& got is Ok
            &&& got->Ok_0.edit == c
        }),
{
    let s = SchemaView::Dict(Box::new(ks), Box::new(vs));
    lemma_edit_round_trip(theirs, mine, role, s, UpdateOp::MapInsert, EditView::Put(k, v), rest);
}

/// After a key has been taken out, a client whose mapping was the server's
/// has the server's mapping without the key.
pub proof fn lemma_map_remove(
    theirs: Graph,
    mine: Graph,
    role: Role,
    ks: SchemaView,
    vs: SchemaView,
    entries: Seq<(ValueView, ValueView)>,
    k: ValueView,
    rest: Seq<u8>,
)
    requires
        typed(theirs, ks, k),
        compatible(mine, theirs),
    ensures
        ({
            let s = SchemaView::Dict(Box::new(ks), Box::new(vs));
            let c = EditView::Cut(k);
            let got = edit_parse(mine, role, s, UpdateOp::MapRemove, edit_wire(theirs, s, c) + rest);
            &&& changed(ValueView::Dict(entries), c) == Ok::<ValueView, Fault>(
                ValueView::Dict(crate::value::dict_cut(entries, k)),
            )
            &&& got is Ok
            &&& got->Ok_0.edit == c
        }),
{
    let s = SchemaView::Dict(Box::new(ks), Box::new(vs));
    lemma_edit_round_trip(theirs, mine, role, s, UpdateOp::MapRemove, EditView::Cut(k), rest);
}

/// After a mapping has been cleared, a client's mapping is empty as the
/// server's is.
pub proof fn lemma_map_clear(
    theirs: Graph,
    mine: Graph,
    role: Role,
    ks: SchemaView,
    vs: SchemaView,
    entries: Seq<(ValueView, ValueView)>,
    rest: Seq<u8>,
)
    requires
        compatible(mine, theirs),
    ensures
        ({
            let s = SchemaView::Dict(Box::new(ks), Box::new(vs));
            let c = EditView::Wipe;
            let got = edit_parse(mine, role, s, UpdateOp::MapClear, edit_wire(theirs, s, c) + rest);
            &&& changed(ValueView::Dict(entries), c) == Ok::<ValueView, Fault>(
                ValueView::Dict(Seq::empty()),
            )
            &&& got is Ok
            &&& got->Ok_0.edit == c
        }),
{
    let s = SchemaView::Dict(Box::new(ks), Box::new(vs));
    lemma_edit_round_trip(theirs, mine, role, s, UpdateOp::MapClear, EditView::Wipe, rest);
}

/// Whether every id in `ids` is the id of a node of `g`.
pub open spec fn known(g: Graph, ids: Set<u32>) -> bool {
    forall|id: u32| ids.contains(id) ==> #[trigger] g.contains_key(id)
}

/// The nodes that the first `n` of a list's well-shaped items reach are
/// nodes of the graph.
pub proof fn lemma_reach_items_known(g: Graph, e: SchemaView, items: Seq<ValueView>, n: nat)
    requires
        n <= items.len(),
        forall|i: int| 0 <= i < n ==> typed(g, e, #[trigger] items[i]),
    ensures
        known(g, reach_items(g, e, items, n)),
    decreases e, 3nat, n,
{
    if n > 0 {
        lemma_reach_items_known(g, e, items, (n - 1) as nat);
        assert(typed(g, e, items[n - 1]));
        lemma_reach_known(g, e, items[n - 1]);
    }
}

/// The nodes that the first `n` of a mapping's well-shaped entries reach
/// are nodes of the graph.
pub proof fn lemma_reach_entries_known(
    g: Graph,
    s: SchemaView,
    entries: Seq<(ValueView, ValueView)>,
    n: nat,
)
    requires
        s is Dict,
        n <= entries.len(),
        forall|i: int|
            0 <= i < n ==> typed(g, *s->Dict_0, (#[trigger] entries[i]).0) && typed(
                g,
                *s->Dict_1,
                entries[i].1,
            ),
    ensures
        known(g, reach_entries(g, s, entries, n)),
    decreases s, 0nat, n,
{
    if n > 0 {
        lemma_reach_entries_known(g, s, entries, (n - 1) as nat);
        assert(typed(g, *s->Dict_0, entries[n - 1].0));
        lemma_reach_known(g, *s->Dict_0, entries[n - 1].0);
        lemma_reach_known(g, *s->Dict_1, entries[n - 1].1);
    }
}

/// The nodes that the first `n` members of a well-shaped row reach are
/// nodes of the graph.
pub proof fn lemma_reach_row_known(
    g: Graph,
    fields: Seq<FieldView>,
    members: Seq<ValueView>,
    n: nat,
)
    requires
        n <= fields.len(),
        typed_row(g, fields, members),
    ensures
        known(g, reach_row(g, fields, members, n)),
    decreases fields, 0nat, n,
{
    lemma_typed_row(g, fields, members);
    if n > 0 {
        lemma_reach_row_known(g, fields, members, (n - 1) as nat);
        assert(typed(g, fields[n - 1].ty, members[n - 1]));
        lemma_reach_known(g, fields[n - 1].ty, members[n - 1]);
    }
}

/// The nodes that a well-shaped value reaches are nodes of the graph.
pub proof fn lemma_reach_known(g: Graph, s: SchemaView, v: ValueView)
    requires
        typed(g, s, v),
    ensures
        known(g, reach(g, s, v)),
    decreases s, 1nat, 0nat,
{
    match s {
        SchemaView::List(e) => {
            lemma_typed_list(g, *e, v->List_0);
            lemma_reach_items_known(g, *e, v->List_0, v->List_0.len());
        },
        SchemaView::Dict(k, w) => {
            lemma_typed_dict(g, *k, *w, v->Dict_0);
            lemma_reach_entries_known(g, s, v->Dict_0, v->Dict_0.len());
        },
        SchemaView::Maybe(e) => {
            match v->Maybe_0 {
                Some(inner) => {
                    lemma_reach_known(g, *e, *inner);
                },
                None => {},
            }
        },
        SchemaView::Record(fields) => {
            lemma_typed_row(g, fields, v->Record_0);
            lemma_reach_row_known(g, fields, v->Record_0, fields.len());
        },
        SchemaView::Choice(variants) => {
            let fields = variants[v->Choice_0 as int];
            lemma_typed_row(g, fields, v->Choice_1);
            lemma_reach_row_known(g, fields, v->Choice_1, fields.len());
        },
        SchemaView::Node(inner) => {
            lemma_reach_known(g, *inner, g[v->Node_0].value);
        },
        _ => {},
    }
}

/// After reading what was written, the reader holds every node that the
/// value reaches, with the writer's shape and the writer's value.
pub proof fn lemma_replica_agrees(theirs: Graph, mine: Graph, role: Role, s: SchemaView, v: ValueView)
    requires
        typed(theirs, s, v),
        compatible(mine, theirs),
    ensures
        forall|id: u32| #[trigger]
            reach(theirs, s, v).contains(id) ==> {
                let got = replica(theirs, mine, role, reach(theirs, s, v));
                &&& got.contains_key(id)
                &&& got[id].schema == theirs[id].schema
                &&& got[id].value == theirs[id].value
            },
{
    lemma_reach_known(theirs, s, v);
}

} // verus!
