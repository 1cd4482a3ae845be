//! Reading values back from the bytes they were written as.

use crate::encode::{from_be_u32, Cursor, FromStream};
use crate::links::taken_in;
use crate::node::{fresh_node, Graph, NodeContext, NodeView, Role};
use crate::value::{dict_put, entries_view, fields_view, find_key, values_view};
use crate::value::{Entry, Field, FieldView, Kind, Scalar, Schema, SchemaView, Value, ValueView};
use crate::visitor::serializer::NANOS_PER_SEC;
use crate::{fault_of, Error, Fault, Reflect, Visitor};
use vstd::prelude::*;

verus! {

/// What reading a value yields: the nodes as they stand afterwards, the
/// value, and the number of bytes that the value took.
pub ghost struct Read {
    pub graph: Graph,
    pub value: ValueView,
    pub used: int,
}

/// What reading a row of values yields: the nodes as they stand afterwards,
/// the values, and the place in the input where the row ends.
pub ghost struct ReadRow {
    pub graph: Graph,
    pub values: Seq<ValueView>,
    pub end: int,
}

/// What reading the entries of a mapping yields.
pub ghost struct ReadEntries {
    pub graph: Graph,
    pub entries: Seq<(ValueView, ValueView)>,
    pub end: int,
}

/// The fixed-width value of the kind `k` at the front of `bytes`, and the
/// number of bytes it takes. A duration is read as seconds and nanoseconds;
/// whole seconds among the nanoseconds are carried over.
pub open spec fn scalar_parse(k: Kind, bytes: Seq<u8>) -> Result<(Scalar, int), Fault> {
    match k {
        Kind::U8 => match <u8 as FromStream>::parse(bytes) {
            Ok((n, used)) => Ok((Scalar::U8(n), used)),
            Err(m) => Err(fault_of(m)),
        },
        Kind::I8 => match <i8 as FromStream>::parse(bytes) {
            Ok((n, used)) => Ok((Scalar::I8(n), used)),
            Err(m) => Err(fault_of(m)),
        },
        Kind::U16 => match <u16 as FromStream>::parse(bytes) {
            Ok((n, used)) => Ok((Scalar::U16(n), used)),
            Err(m) => Err(fault_of(m)),
        },
        Kind::I16 => match <i16 as FromStream>::parse(bytes) {
            Ok((n, used)) => Ok((Scalar::I16(n), used)),
            Err(m) => Err(fault_of(m)),
        },
        Kind::U32 => match <u32 as FromStream>::parse(bytes) {
            Ok((n, used)) => Ok((Scalar::U32(n), used)),
            Err(m) => Err(fault_of(m)),
        },
        Kind::I32 => match <i32 as FromStream>::parse(bytes) {
            Ok((n, used)) => Ok((Scalar::I32(n), used)),
            Err(m) => Err(fault_of(m)),
        },
        Kind::U64 => match <u64 as FromStream>::parse(bytes) {
            Ok((n, used)) => Ok((Scalar::U64(n), used)),
            Err(m) => Err(fault_of(m)),
        },
        Kind::I64 => match <i64 as FromStream>::parse(bytes) {
            Ok((n, used)) => Ok((Scalar::I64(n), used)),
            Err(m) => Err(fault_of(m)),
        },
        Kind::F32 => match <u32 as FromStream>::parse(bytes) {
            Ok((n, used)) => Ok((Scalar::F32(n), used)),
            Err(m) => Err(fault_of(m)),
        },
        Kind::F64 => match <u64 as FromStream>::parse(bytes) {
            Ok((n, used)) => Ok((Scalar::F64(n), used)),
            Err(m) => Err(fault_of(m)),
        },
        Kind::Bool => match <bool as FromStream>::parse(bytes) {
            Ok((b, used)) => Ok((Scalar::Bool(b), used)),
            Err(m) => Err(fault_of(m)),
        },
        Kind::Duration => match <u64 as FromStream>::parse(bytes) {
            Err(m) => Err(fault_of(m)),
            Ok((secs, _)) => match <u32 as FromStream>::parse(bytes.skip(8)) {
                Err(m) => Err(fault_of(m)),
                Ok((nanos, _)) => if secs + nanos / NANOS_PER_SEC > u64::MAX {
                    Err(Fault::Violation)
                } else {
                    Ok(
                        (
                            Scalar::Duration(
                                (secs + nanos / NANOS_PER_SEC) as u64,
                                (nanos % NANOS_PER_SEC) as u32,
                            ),
                            12,
                        ),
                    )
                },
            },
        },
    }
}

/// The nodes after `value` has arrived for the node `id`: a node that was
/// there keeps all but its value, and a node that was not is made.
pub open spec fn store(g: Graph, role: Role, id: u32, schema: SchemaView, value: ValueView) -> Graph {
    if g.contains_key(id) {
        g.insert(id, NodeView { value, ..g[id] })
    } else {
        g.insert(id, fresh_node(id, role, schema, value))
    }
}

/// What the front of `bytes` holds when read as a value of the shape `s`
/// into the nodes `g` of an endpoint with the given role. A reference to a
/// node is read as the node's id and then the node's value, which is stored
/// under the id.
pub open spec fn parse(g: Graph, role: Role, s: SchemaView, bytes: Seq<u8>) -> Result<Read, Fault>
    decreases s, 1nat, 0nat,
{
    match s {
        SchemaView::Scalar(k) => match scalar_parse(k, bytes) {
            Ok((x, used)) => Ok(Read { graph: g, value: ValueView::Scalar(x), used }),
            Err(f) => Err(f),
        },
        SchemaView::Text => match <String as FromStream>::parse(bytes) {
            Ok((t, used)) => Ok(Read { graph: g, value: ValueView::Text(t), used }),
            Err(m) => Err(fault_of(m)),
        },
        SchemaView::List(e) => if bytes.len() < 4 {
            Err(Fault::Truncated)
        } else {
            match parse_items(
                g,
                role,
                *e,
                bytes.skip(4),
                0,
                from_be_u32(bytes) as nat,
                Seq::empty(),
            ) {
                Ok(r) => Ok(
                    Read { graph: r.graph, value: ValueView::List(r.values), used: 4 + r.end },
                ),
                Err(f) => Err(f),
            }
        },
        SchemaView::Dict(_, _) => if bytes.len() < 4 {
            Err(Fault::Truncated)
        } else {
            match parse_entries(
                g,
                role,
                s,
                bytes.skip(4),
                0,
                from_be_u32(bytes) as nat,
                Seq::empty(),
            ) {
                Ok(r) => Ok(
                    Read { graph: r.graph, value: ValueView::Dict(r.entries), used: 4 + r.end },
                ),
                Err(f) => Err(f),
            }
        },
        SchemaView::Maybe(e) => if bytes.len() < 1 {
            Err(Fault::Truncated)
        } else if bytes[0] == 0 {
            Ok(Read { graph: g, value: ValueView::Maybe(None), used: 1 })
        } else {
            match parse(g, role, *e, bytes.skip(1)) {
                Ok(r) => Ok(
                    Read {
                        graph: r.graph,
                        value: ValueView::Maybe(Some(Box::new(r.value))),
                        used: 1 + r.used,
                    },
                ),
                Err(f) => Err(f),
            }
        },
        SchemaView::Record(fields) => match parse_row(g, role, fields, bytes, 0, 0, Seq::empty()) {
            Ok(r) => Ok(Read { graph: r.graph, value: ValueView::Record(r.values), used: r.end }),
            Err(f) => Err(f),
        },
        SchemaView::Choice(variants) => if bytes.len() < 1 {
            Err(Fault::Truncated)
        } else if bytes[0] >= variants.len() {
            Err(Fault::Violation)
        } else {
            match parse_row(g, role, variants[bytes[0] as int], bytes.skip(1), 0, 0, Seq::empty()) {
                Ok(r) => Ok(
                    Read {
                        graph: r.graph,
                        value: ValueView::Choice(bytes[0], r.values),
                        used: 1 + r.end,
                    },
                ),
                Err(f) => Err(f),
            }
        },
        SchemaView::Node(inner) => if bytes.len() < 4 {
            Err(Fault::Truncated)
        } else if from_be_u32(bytes) == 0 {
            Err(Fault::Violation)
        } else {
            let id = from_be_u32(bytes);
            match parse(g, role, *inner, bytes.skip(4)) {
                Err(f) => Err(f),
                Ok(r) => if r.graph.contains_key(id) && r.graph[id].schema != *inner {
                    Err(Fault::Violation)
                } else {
                    Ok(
                        Read {
                            graph: store(r.graph, role, id, *inner, r.value),
                            value: ValueView::Node(id),
                            used: 4 + r.used,
                        },
                    )
                },
            }
        },
    }
}

/// What `all` holds from `pos` on when read as `n` more items of the shape
/// `e`, after the items `acc`.
pub open spec fn parse_items(
    g: Graph,
    role: Role,
    e: SchemaView,
    all: Seq<u8>,
    pos: int,
    n: nat,
    acc: Seq<ValueView>,
) -> Result<ReadRow, Fault>
    decreases e, 2nat, n,
{
    if n == 0 {
        Ok(ReadRow { graph: g, values: acc, end: pos })
    } else {
        match parse(g, role, e, all.skip(pos)) {
            Err(f) => Err(f),
            Ok(r) => parse_items(
                r.graph,
                role,
                e,
                all,
                pos + r.used,
                (n - 1) as nat,
                acc.push(r.value),
            ),
        }
    }
}

/// What `all` holds from `pos` on when read as `n` more entries of a mapping
/// of the shape `s`, after the entries `acc`. An entry whose key was read
/// before takes the earlier entry's place.
pub open spec fn parse_entries(
    g: Graph,
    role: Role,
    s: SchemaView,
    all: Seq<u8>,
    pos: int,
    n: nat,
    acc: Seq<(ValueView, ValueView)>,
) -> Result<ReadEntries, Fault>
    decreases s, 0nat, n,
{
    match s {
        SchemaView::Dict(k, w) => if n == 0 {
            Ok(ReadEntries { graph: g, entries: acc, end: pos })
        } else {
            match parse(g, role, *k, all.skip(pos)) {
                Err(f) => Err(f),
                Ok(rk) => match parse(rk.graph, role, *w, all.skip(pos + rk.used)) {
                    Err(f) => Err(f),
                    Ok(rv) => parse_entries(
                        rv.graph,
                        role,
                        s,
                        all,
                        pos + rk.used + rv.used,
                        (n - 1) as nat,
                        dict_put(acc, rk.value, rv.value),
                    ),
                },
            }
        },
        _ => Err(Fault::Violation),
    }
}

/// What `all` holds from `pos` on when read as the members from the `i`-th
/// on of a row with the given fields, after the members `acc`.
pub open spec fn parse_row(
    g: Graph,
    role: Role,
    fields: Seq<FieldView>,
    all: Seq<u8>,
    pos: int,
    i: nat,
    acc: Seq<ValueView>,
) -> Result<ReadRow, Fault>
    decreases fields, 0nat, fields.len() - i,
{
    if i >= fields.len() {
        Ok(ReadRow { graph: g, values: acc, end: pos })
    } else {
        match parse(g, role, fields[i as int].ty, all.skip(pos)) {
            Err(f) => Err(f),
            Ok(r) => parse_row(r.graph, role, fields, all, pos + r.used, i + 1, acc.push(r.value)),
        }
    }
}

/// Reads a fixed-width value of the kind `k`.
pub fn read_scalar(input: &mut Cursor, k: Kind) -> (r: Result<Scalar, Error>)
    ensures
        final(input).bytes() == old(input).bytes(),
        match scalar_parse(k, old(input).remaining()) {
            Ok((x, used)) => r is Ok && r->Ok_0 == x && 0 <= used <= old(input).remaining().len()
                && final(input).remaining() == old(input).remaining().skip(used),
            Err(f) => r is Err && r->Err_0.fault() == f,
        },
{
    let ghost all = input.remaining();
    proof {
        <u8 as FromStream>::lemma_parse_bounds(all);
        <i8 as FromStream>::lemma_parse_bounds(all);
        <u16 as FromStream>::lemma_parse_bounds(all);
        <i16 as FromStream>::lemma_parse_bounds(all);
        <u32 as FromStream>::lemma_parse_bounds(all);
        <i32 as FromStream>::lemma_parse_bounds(all);
        <u64 as FromStream>::lemma_parse_bounds(all);
        <i64 as FromStream>::lemma_parse_bounds(all);
        <bool as FromStream>::lemma_parse_bounds(all);
    }
    match k {
        Kind::U8 => match u8::decode(input) {
            Ok(n) => Ok(Scalar::U8(n)),
            Err(e) => Err(Error::of(e)),
        },
        Kind::I8 => match i8::decode(input) {
            Ok(n) => Ok(Scalar::I8(n)),
            Err(e) => Err(Error::of(e)),
        },
        Kind::U16 => match u16::decode(input) {
            Ok(n) => Ok(Scalar::U16(n)),
            Err(e) => Err(Error::of(e)),
        },
        Kind::I16 => match i16::decode(input) {
            Ok(n) => Ok(Scalar::I16(n)),
            Err(e) => Err(Error::of(e)),
        },
        Kind::U32 => match u32::decode(input) {
            Ok(n) => Ok(Scalar::U32(n)),
            Err(e) => Err(Error::of(e)),
        },
        Kind::I32 => match i32::decode(input) {
            Ok(n) => Ok(Scalar::I32(n)),
            Err(e) => Err(Error::of(e)),
        },
        Kind::U64 => match u64::decode(input) {
            Ok(n) => Ok(Scalar::U64(n)),
            Err(e) => Err(Error::of(e)),
        },
        Kind::I64 => match i64::decode(input) {
            Ok(n) => Ok(Scalar::I64(n)),
            Err(e) => Err(Error::of(e)),
        },
        Kind::F32 => match u32::decode(input) {
            Ok(n) => Ok(Scalar::F32(n)),
            Err(e) => Err(Error::of(e)),
        },
        Kind::F64 => match u64::decode(input) {
            Ok(n) => Ok(Scalar::F64(n)),
            Err(e) => Err(Error::of(e)),
        },
        Kind::Bool => match bool::decode(input) {
            Ok(b) => Ok(Scalar::Bool(b)),
            Err(e) => Err(Error::of(e)),
        },
        Kind::Duration => {
            let secs = match u64::decode(input) {
                Ok(n) => n,
                Err(e) => {
                    return Err(Error::of(e));
                },
            };
            proof {
                <u32 as FromStream>::lemma_parse_bounds(all.skip(8));
            }
            let nanos = match u32::decode(input) {
                Ok(n) => n,
                Err(e) => {
                    return Err(Error::of(e));
                },
            };
            assert(input.remaining() == all.skip(12)) by {
                assert(all.skip(8).skip(4) == all.skip(12));
            }
            match secs.checked_add((nanos / NANOS_PER_SEC) as u64) {
                Some(total) => Ok(Scalar::Duration(total, nanos % NANOS_PER_SEC)),
                None => Err(Error::custom("a duration beyond what can be counted")),
            }
        },
    }
}

/// Reads the members of a record or variant.
pub fn read_row(input: &mut Cursor, ctx: &mut NodeContext, fields: &Vec<Field>) -> (r: Result<
    Vec<Value>,
    Error,
>)
    ensures
        final(input).bytes() == old(input).bytes(),
        final(ctx)@.role == old(ctx)@.role,
        final(ctx)@.next == old(ctx)@.next,
        final(ctx)@.outbox == old(ctx)@.outbox,
        match parse_row(
            old(ctx)@.nodes,
            old(ctx)@.role,
            fields_view(*fields),
            old(input).remaining(),
            0,
            0,
            Seq::empty(),
        ) {
            Ok(read) => r is Ok && values_view(r->Ok_0) == read.values && final(ctx)@.nodes
                == read.graph && 0 <= read.end <= old(input).remaining().len() && final(input).remaining() == old(input).remaining().skip(read.end),
            Err(f) => r is Err && r->Err_0.fault() == f,
        },
    decreases fields, 0nat,
{
    let ghost all = input.remaining();
    let ghost g0 = ctx@.nodes;
    let ghost role = ctx@.role;
    let ghost fs = fields_view(*fields);
    let mut members: Vec<Value> = Vec::new();
    let mut i: usize = 0;
    let ghost mut pos: int = 0;
    assert(all.skip(0) == all);
    assert(values_view(members) =~= Seq::<ValueView>::empty());
    while i < fields.len()
        invariant
            i <= fields.len(),
            all == old(input).remaining(),
            g0 == old(ctx)@.nodes,
            role == old(ctx)@.role,
            fs == fields_view(*fields),
            input.bytes() == old(input).bytes(),
            ctx@.role == role,
            ctx@.next == old(ctx)@.next,
            ctx@.outbox == old(ctx)@.outbox,
            0 <= pos <= all.len(),
            input.remaining() == all.skip(pos),
            parse_row(g0, role, fs, all, 0, 0, Seq::empty()) == parse_row(
                ctx@.nodes,
                role,
                fs,
                all,
                pos,
                i as nat,
                values_view(members),
            ),
        decreases fields.len() - i,
    {
        let ghost before = values_view(members);
        let ghost here = parse(ctx@.nodes, role, fs[i as int].ty, all.skip(pos));
        let item = match read_value(input, ctx, &fields[i].ty) {
            Ok(item) => item,
            Err(e) => {
                return Err(e);
            },
        };
        let ghost shown = item@;
        members.push(item);
        proof {
            let used = here->Ok_0.used;
            assert(all.skip(pos).skip(used) == all.skip(pos + used));
            assert(values_view(members) =~= before.push(shown));
            pos = pos + used;
        }
        i = i + 1;
    }
    Ok(members)
}

/// Reads `n` items of the shape `e`.
pub fn read_items(input: &mut Cursor, ctx: &mut NodeContext, e: &Schema, n: u32) -> (r: Result<
    Vec<Value>,
    Error,
>)
    ensures
        final(input).bytes() == old(input).bytes(),
        final(ctx)@.role == old(ctx)@.role,
        final(ctx)@.next == old(ctx)@.next,
        final(ctx)@.outbox == old(ctx)@.outbox,
        match parse_items(
            old(ctx)@.nodes,
            old(ctx)@.role,
            e@,
            old(input).remaining(),
            0,
            n as nat,
            Seq::empty(),
        ) {
            Ok(read) => r is Ok && values_view(r->Ok_0) == read.values && final(ctx)@.nodes
                == read.graph && 0 <= read.end <= old(input).remaining().len() && final(input).remaining() == old(input).remaining().skip(read.end),
            Err(f) => r is Err && r->Err_0.fault() == f,
        },
    decreases e, 3nat,
{
    let ghost body = input.remaining();
    let ghost g0 = ctx@.nodes;
    let ghost role = ctx@.role;
    let mut items: Vec<Value> = Vec::new();
    let mut i: u32 = 0;
    let ghost mut pos: int = 0;
    assert(body.skip(0) == body);
    assert(values_view(items) =~= Seq::<ValueView>::empty());
    while i < n
        invariant
            i <= n,
            body == old(input).remaining(),
            g0 == old(ctx)@.nodes,
            role == old(ctx)@.role,
            input.bytes() == old(input).bytes(),
            ctx@.role == role,
            ctx@.next == old(ctx)@.next,
            ctx@.outbox == old(ctx)@.outbox,
            0 <= pos <= body.len(),
            input.remaining() == body.skip(pos),
            parse_items(g0, role, e@, body, 0, n as nat, Seq::empty()) == parse_items(
                ctx@.nodes,
                role,
                e@,
                body,
                pos,
                (n - i) as nat,
                values_view(items),
            ),
        decreases n - i,
    {
        let ghost before = values_view(items);
        let ghost here = parse(ctx@.nodes, role, e@, body.skip(pos));
        let item = match read_value(input, ctx, e) {
            Ok(item) => item,
            Err(err) => {
                return Err(err);
            },
        };
        let ghost shown = item@;
        items.push(item);
        proof {
            let used = here->Ok_0.used;
            assert(body.skip(pos).skip(used) == body.skip(pos + used));
            assert(values_view(items) =~= before.push(shown));
            pos = pos + used;
        }
        i = i + 1;
    }
    Ok(items)
}

/// Reads `n` entries of a mapping of the shape `schema`.
pub fn read_entries(input: &mut Cursor, ctx: &mut NodeContext, schema: &Schema, n: u32) -> (r:
    Result<Vec<Entry>, Error>)
    requires
        schema is Dict,
    ensures
        final(input).bytes() == old(input).bytes(),
        final(ctx)@.role == old(ctx)@.role,
        final(ctx)@.next == old(ctx)@.next,
        final(ctx)@.outbox == old(ctx)@.outbox,
        match parse_entries(
            old(ctx)@.nodes,
            old(ctx)@.role,
            schema@,
            old(input).remaining(),
            0,
            n as nat,
            Seq::empty(),
        ) {
            Ok(read) => r is Ok && entries_view(r->Ok_0) == read.entries && final(ctx)@.nodes
                == read.graph && 0 <= read.end <= old(input).remaining().len() && final(input).remaining() == old(input).remaining().skip(read.end),
            Err(f) => r is Err && r->Err_0.fault() == f,
        },
    decreases schema, 0nat,
{
    let ghost body = input.remaining();
    let ghost g0 = ctx@.nodes;
    let ghost role = ctx@.role;
    let mut entries: Vec<Entry> = Vec::new();
    let mut i: u32 = 0;
    let ghost mut pos: int = 0;
    assert(body.skip(0) == body);
    assert(entries_view(entries) =~= Seq::<(ValueView, ValueView)>::empty());
    while i < n
        invariant
            i <= n,
            schema is Dict,
            body == old(input).remaining(),
            g0 == old(ctx)@.nodes,
            role == old(ctx)@.role,
            input.bytes() == old(input).bytes(),
            ctx@.role == role,
            ctx@.next == old(ctx)@.next,
            ctx@.outbox == old(ctx)@.outbox,
            0 <= pos <= body.len(),
            input.remaining() == body.skip(pos),
            parse_entries(g0, role, schema@, body, 0, n as nat, Seq::empty()) == parse_entries(
                ctx@.nodes,
                role,
                schema@,
                body,
                pos,
                (n - i) as nat,
                entries_view(entries),
            ),
        decreases n - i,
    {
        if let Schema::Dict(k, w) = schema {
            let ghost for_key = parse(ctx@.nodes, role, (**k)@, body.skip(pos));
            let key = match read_value(input, ctx, k) {
                Ok(key) => key,
                Err(err) => {
                    return Err(err);
                },
            };
            let ghost mid = pos + for_key->Ok_0.used;
            assert(body.skip(pos).skip(for_key->Ok_0.used) == body.skip(mid));
            let ghost for_val = parse(ctx@.nodes, role, (**w)@, body.skip(mid));
            let val = match read_value(input, ctx, w) {
                Ok(val) => val,
                Err(err) => {
                    return Err(err);
                },
            };
            proof {
                assert(body.skip(mid).skip(for_val->Ok_0.used) == body.skip(
                    mid + for_val->Ok_0.used,
                ));
                pos = mid + for_val->Ok_0.used;
            }
            put_entry(&mut entries, key, val);
        }
        i = i + 1;
    }
    Ok(entries)
}

/// Reads the value of the node `id`, of the shape `inner`, and stores it in
/// `ctx` under that id.
pub fn read_node(input: &mut Cursor, ctx: &mut NodeContext, inner: &Schema, id: u32) -> (r: Result<
    (),
    Error,
>)
    ensures
        final(input).bytes() == old(input).bytes(),
        final(ctx)@.role == old(ctx)@.role,
        final(ctx)@.next == old(ctx)@.next,
        final(ctx)@.outbox == old(ctx)@.outbox,
        match parse(old(ctx)@.nodes, old(ctx)@.role, inner@, old(input).remaining()) {
            Ok(read) => if read.graph.contains_key(id) && read.graph[id].schema != inner@ {
                r is Err && r->Err_0.fault() == Fault::Violation
            } else {
                r is Ok && final(ctx)@.nodes == store(
                    read.graph,
                    old(ctx)@.role,
                    id,
                    inner@,
                    read.value,
                ) && 0 <= read.used <= old(input).remaining().len() && final(input).remaining()
                    == old(input).remaining().skip(read.used)
            },
            Err(f) => r is Err && r->Err_0.fault() == f,
        },
    decreases inner, 3nat,
{
    let ghost role = ctx@.role;
    let ghost here = parse(ctx@.nodes, role, inner@, input.remaining());
    let content = match read_value(input, ctx, inner) {
        Ok(v) => v,
        Err(err) => {
            return Err(err);
        },
    };
    let ghost g1 = ctx@.nodes;
    match ctx.get(id) {
        Some(known) => {
            if !known.schema.same(inner) {
                return Err(Error::custom("a node of another shape"));
            }
        },
        None => {},
    }
    ctx.insert(id, inner.duplicate(), content);
    assert(ctx@.nodes =~= store(g1, role, id, inner@, here->Ok_0.value));
    Ok(())
}

/// Whether `r`, `input` and `ctx` are what reading a value of the shape
/// `schema` leaves behind: the value that the input holds, stored nodes and a
/// cursor moved on; or the kind of failure that the input calls for.
pub open spec fn read_as(
    before: Cursor,
    after: Cursor,
    ctx_before: crate::node::ContextView,
    ctx_after: crate::node::ContextView,
    schema: SchemaView,
    r: Result<Value, Error>,
) -> bool {
    &&& after.bytes() == before.bytes()
    &&& ctx_after.role == ctx_before.role
    &&& ctx_after.next == ctx_before.next
    &&& ctx_after.outbox == ctx_before.outbox
    &&& match parse(ctx_before.nodes, ctx_before.role, schema, before.remaining()) {
        Ok(read) => r is Ok && r->Ok_0@ == read.value && ctx_after.nodes == read.graph && 0
            <= read.used <= before.remaining().len() && after.remaining()
            == before.remaining().skip(read.used),
        Err(f) => r is Err && r->Err_0.fault() == f,
    }
}

/// Reads a list: the count, then that many items.
fn read_list(input: &mut Cursor, ctx: &mut NodeContext, schema: &Schema) -> (r: Result<Value, Error>)
    requires
        schema is List,
    ensures
        read_as(*old(input), *final(input), old(ctx)@, final(ctx)@, schema@, r),
    decreases schema, 1nat,
{
    let ghost all = input.remaining();
    let ghost g0 = ctx@.nodes;
    let ghost role = ctx@.role;
    match schema {
        Schema::List(e) => {
            let n = match u32::decode(input) {
                Ok(n) => n,
                Err(e) => {
                    return Err(Error::of(e));
                },
            };
            let ghost here = parse_items(g0, role, (**e)@, all.skip(4), 0, n as nat, Seq::empty());
            match read_items(input, ctx, e, n) {
                Ok(items) => {
                    assert(all.skip(4).skip(here->Ok_0.end) == all.skip(4 + here->Ok_0.end));
                    Ok(Value::List(items))
                },
                Err(err) => Err(err),
            }
        },
        _ => Err(Error::custom("not a list")),
    }
}

/// Reads a mapping: the count, then that many entries.
fn read_dict(input: &mut Cursor, ctx: &mut NodeContext, schema: &Schema) -> (r: Result<Value, Error>)
    requires
        schema is Dict,
    ensures
        read_as(*old(input), *final(input), old(ctx)@, final(ctx)@, schema@, r),
    decreases schema, 1nat,
{
    let ghost all = input.remaining();
    let ghost g0 = ctx@.nodes;
    let ghost role = ctx@.role;
    let n = match u32::decode(input) {
        Ok(n) => n,
        Err(e) => {
            return Err(Error::of(e));
        },
    };
    let ghost here = parse_entries(g0, role, schema@, all.skip(4), 0, n as nat, Seq::empty());
    match read_entries(input, ctx, schema, n) {
        Ok(entries) => {
            assert(all.skip(4).skip(here->Ok_0.end) == all.skip(4 + here->Ok_0.end));
            let r = Value::Dict(entries);
            assert(r@->Dict_0 =~= entries_view(entries));
            Ok(r)
        },
        Err(err) => Err(err),
    }
}

/// Reads a value that may be absent: a byte that says whether it is there,
/// then the value if it is.
fn read_maybe(input: &mut Cursor, ctx: &mut NodeContext, schema: &Schema) -> (r: Result<
    Value,
    Error,
>)
    requires
        schema is Maybe,
    ensures
        read_as(*old(input), *final(input), old(ctx)@, final(ctx)@, schema@, r),
    decreases schema, 1nat,
{
    let ghost all = input.remaining();
    let ghost g0 = ctx@.nodes;
    let ghost role = ctx@.role;
    match schema {
        Schema::Maybe(e) => {
            let flag = match input.read_byte() {
                Ok(b) => b,
                Err(e) => {
                    return Err(Error::of(e));
                },
            };
            if flag == 0 {
                Ok(Value::Maybe(None))
            } else {
                let ghost here = parse(g0, role, (**e)@, all.skip(1));
                match read_value(input, ctx, e) {
                    Ok(inner) => {
                        assert(all.skip(1).skip(here->Ok_0.used) == all.skip(1 + here->Ok_0.used));
                        Ok(Value::Maybe(Some(Box::new(inner))))
                    },
                    Err(err) => Err(err),
                }
            }
        },
        _ => Err(Error::custom("not an optional value")),
    }
}

/// Reads a value of an enum: the number of the variant, then the variant's
/// members. A number that the enum does not have is refused.
fn read_choice(input: &mut Cursor, ctx: &mut NodeContext, schema: &Schema) -> (r: Result<
    Value,
    Error,
>)
    requires
        schema is Choice,
    ensures
        read_as(*old(input), *final(input), old(ctx)@, final(ctx)@, schema@, r),
    decreases schema, 1nat,
{
    let ghost all = input.remaining();
    let ghost g0 = ctx@.nodes;
    let ghost role = ctx@.role;
    match schema {
        Schema::Choice(variants) => {
            let tag = match input.read_byte() {
                Ok(b) => b,
                Err(e) => {
                    return Err(Error::of(e));
                },
            };
            if (tag as usize) >= variants.len() {
                return Err(Error::custom("a variant that the enum does not have"));
            }
            let ghost here = parse_row(
                g0,
                role,
                schema@->Choice_0[tag as int],
                all.skip(1),
                0,
                0,
                Seq::empty(),
            );
            assert(schema->Choice_0 == *variants);
            match read_row(input, ctx, &variants[tag as usize]) {
                Ok(members) => {
                    assert(all.skip(1).skip(here->Ok_0.end) == all.skip(1 + here->Ok_0.end));
                    Ok(Value::Choice(tag, members))
                },
                Err(err) => Err(err),
            }
        },
        _ => Err(Error::custom("not an enum")),
    }
}

/// Reads a reference to a node: the node's id, then the node's value, which
/// is stored under the id. The id 0 is refused.
fn read_reference(input: &mut Cursor, ctx: &mut NodeContext, schema: &Schema) -> (r: Result<
    Value,
    Error,
>)
    requires
        schema is Node,
    ensures
        read_as(*old(input), *final(input), old(ctx)@, final(ctx)@, schema@, r),
    decreases schema, 1nat,
{
    let ghost all = input.remaining();
    let ghost g0 = ctx@.nodes;
    let ghost role = ctx@.role;
    match schema {
        Schema::Node(inner) => {
            let id = match u32::decode(input) {
                Ok(n) => n,
                Err(e) => {
                    return Err(Error::of(e));
                },
            };
            if id == 0 {
                return Err(Error::custom("a node without an id"));
            }
            let ghost here = parse(g0, role, (**inner)@, all.skip(4));
            match read_node(input, ctx, inner, id) {
                Ok(()) => {
                    assert(all.skip(4).skip(here->Ok_0.used) == all.skip(4 + here->Ok_0.used));
                    Ok(Value::Node(id))
                },
                Err(err) => Err(err),
            }
        },
        _ => Err(Error::custom("not a reference")),
    }
}

/// Reads a value of the shape `schema` from the front of what is left in
/// `input`. Where the value refers to nodes, their values follow in the
/// input and are stored in `ctx`, in nodes that are made where there were
/// none.
pub fn read_value(input: &mut Cursor, ctx: &mut NodeContext, schema: &Schema) -> (r: Result<
    Value,
    Error,
>)
    ensures
        read_as(*old(input), *final(input), old(ctx)@, final(ctx)@, schema@, r),
    decreases schema, 2nat,
{
    match schema {
        Schema::Scalar(k) => match read_scalar(input, *k) {
            Ok(x) => Ok(Value::Scalar(x)),
            Err(e) => Err(e),
        },
        Schema::Text => {
            proof {
                <String as FromStream>::lemma_parse_bounds(input.remaining());
            }
            match String::decode(input) {
                Ok(t) => Ok(Value::Text(t)),
                Err(e) => Err(Error::of(e)),
            }
        },
        Schema::List(_) => read_list(input, ctx, schema),
        Schema::Dict(_, _) => read_dict(input, ctx, schema),
        Schema::Maybe(_) => read_maybe(input, ctx, schema),
        Schema::Record(fields) => match read_row(input, ctx, fields) {
            Ok(members) => Ok(Value::Record(members)),
            Err(err) => Err(err),
        },
        Schema::Choice(_) => read_choice(input, ctx, schema),
        Schema::Node(_) => read_reference(input, ctx, schema),
    }
}

/// Gives `key` the value `val` among `entries`: in the place where the key
/// stood, or at the end where it did not.
pub fn put_entry(entries: &mut Vec<Entry>, key: Value, val: Value)
    ensures
        entries_view(*final(entries)) == dict_put(entries_view(*old(entries)), key@, val@),
{
    let ghost before = entries_view(*entries);
    match find_key(entries, &key) {
        Some(i) => {
            entries.set(i, Entry { key, val });
            assert(entries_view(*entries) =~= before.update(i as int, (key@, val@)));
        },
        None => {
            entries.push(Entry { key, val });
            assert(entries_view(*entries) =~= before.push((key@, val@)));
        },
    }
}

/// A visitor that reads what it is shown from a byte buffer.
pub struct Deserializer {
    /// The bytes to read, and how far they have been read.
    pub reader: Cursor,
    /// The id of the node whose value is being read, if it is a node's.
    pub current_node: Option<u32>,
    /// The context that the nodes which arrive are stored in, while one is
    /// attached: `read` reads among its nodes.
    pub context: Option<NodeContext>,
}

impl Deserializer {
    /// A deserializer at the front of `reader`.
    pub fn new(reader: Cursor) -> (d: Deserializer)
        ensures
            d.reader == reader,
            d.current_node is None,
            d.context is None,
    {
        Deserializer { reader, current_node: None, context: None }
    }

    /// A deserializer at the front of `reader`, for the value of the node
    /// `current_node`.
    pub fn with_current_node(reader: Cursor, current_node: u32) -> (d: Deserializer)
        ensures
            d.reader == reader,
            d.current_node == Some(current_node),
            d.context is None,
    {
        Deserializer { reader, current_node: Some(current_node), context: None }
    }

    /// Attaches the context that the nodes which arrive are stored in.
    pub fn attach_context(&mut self, context: NodeContext)
        ensures
            final(self).context == Some(context),
            final(self).reader == old(self).reader,
            final(self).current_node == old(self).current_node,
    {
        self.context = Some(context);
    }

    /// Hands back the context that was attached.
    pub fn context(&mut self) -> (context: NodeContext)
        requires
            old(self).context is Some,
        ensures
            Some(context) == old(self).context,
            final(self).context is None,
            final(self).reader == old(self).reader,
            final(self).current_node == old(self).current_node,
    {
        self.context.take().unwrap()
    }

    /// Reads a value of the shape `schema` among the nodes of the context
    /// that is attached: the nodes that arrive are stored there, and where
    /// the deserializer has a current node, that node is then the parent of
    /// every node that the value refers to.
    pub fn read(&mut self, schema: &Schema) -> (r: Result<Value, Error>)
        requires
            old(self).context is Some,
        ensures
            final(self).current_node == old(self).current_node,
            final(self).context is Some,
            final(self).reader.bytes() == old(self).reader.bytes(),
            final(self).context->Some_0@.role == old(self).context->Some_0@.role,
            final(self).context->Some_0@.next == old(self).context->Some_0@.next,
            final(self).context->Some_0@.outbox == old(self).context->Some_0@.outbox,
            match parse(
                old(self).context->Some_0@.nodes,
                old(self).context->Some_0@.role,
                schema@,
                old(self).reader.remaining(),
            ) {
                Ok(read) => r is Ok && r->Ok_0@ == read.value && final(self).context->Some_0@.nodes
                    == taken_in(read.graph, old(self).current_node, schema@, read.value) && 0
                    <= read.used <= old(self).reader.remaining().len() && final(self).reader.remaining() == old(self).reader.remaining().skip(read.used),
                Err(f) => r is Err && r->Err_0.fault() == f,
            },
    {
        let mut ctx = self.context.take().unwrap();
        let r = match read_value(&mut self.reader, &mut ctx, schema) {
            Ok(v) => {
                ctx.take_in(self.current_node, schema, &v);
                Ok(v)
            },
            Err(e) => Err(e),
        };
        self.context = Some(ctx);
        r
    }
}

impl Visitor for Deserializer {
    /// Reads the member, whatever its name, in place of the value that was
    /// there. Where the deserializer has a current node, that node is then
    /// the parent of every node that the member refers to.
    fn visit(&mut self, ctx: &mut NodeContext, name: &str, schema: &Schema, val: &mut Value) -> (r:
        Result<(), Error>)
        ensures
            final(self).current_node == old(self).current_node,
            final(self).context == old(self).context,
            final(self).reader.bytes() == old(self).reader.bytes(),
            final(ctx)@.role == old(ctx)@.role,
            final(ctx)@.next == old(ctx)@.next,
            final(ctx)@.outbox == old(ctx)@.outbox,
            match parse(
                old(ctx)@.nodes,
                old(ctx)@.role,
                schema@,
                old(self).reader.remaining(),
            ) {
                Ok(read) => r is Ok && final(val)@ == read.value && final(ctx)@.nodes == taken_in(
                    read.graph,
                    old(self).current_node,
                    schema@,
                    read.value,
                ) && 0 <= read.used <= old(self).reader.remaining().len() && final(self).reader.remaining() == old(self).reader.remaining().skip(read.used),
                Err(f) => r is Err && r->Err_0.fault() == f && final(val)@ == old(val)@,
            },
    {
        match read_value(&mut self.reader, ctx, schema) {
            Ok(v) => {
                ctx.take_in(self.current_node, schema, &v);
                *val = v;
                Ok(())
            },
            Err(e) => Err(e),
        }
    }
}

impl Reflect<Deserializer> for Value {
    /// Reads a value in place of this one. Where the deserializer has a
    /// current node, that node is then the parent of every node that the
    /// value refers to.
    fn reflect(&mut self, ctx: &mut NodeContext, schema: &Schema, visitor: &mut Deserializer) -> (r:
        Result<(), Error>)
        ensures
            final(visitor).current_node == old(visitor).current_node,
            final(visitor).context == old(visitor).context,
            final(visitor).reader.bytes() == old(visitor).reader.bytes(),
            final(ctx)@.role == old(ctx)@.role,
            final(ctx)@.next == old(ctx)@.next,
            final(ctx)@.outbox == old(ctx)@.outbox,
            match parse(
                old(ctx)@.nodes,
                old(ctx)@.role,
                schema@,
                old(visitor).reader.remaining(),
            ) {
                Ok(read) => r is Ok && final(self)@ == read.value && final(ctx)@.nodes == taken_in(
                    read.graph,
                    old(visitor).current_node,
                    schema@,
                    read.value,
                ) && 0 <= read.used <= old(visitor).reader.remaining().len() && final(visitor).reader.remaining() == old(visitor).reader.remaining().skip(read.used),
                Err(f) => r is Err && r->Err_0.fault() == f && final(self)@ == old(self)@,
            },
    {
        match read_value(&mut visitor.reader, ctx, schema) {
            Ok(v) => {
                ctx.take_in(visitor.current_node, schema, &v);
                *self = v;
                Ok(())
            },
            Err(e) => Err(e),
        }
    }
}

} // verus!
