//! Writing values to a byte buffer.

use crate::encode::{be_u16, be_u32, be_u64, bits_i16, bits_i32, bits_i64, bits_i8, count, count_of};
use crate::encode::ToStream;
use crate::links::taken_in;
use crate::node::{ContextView, Graph, NodeContext};
use crate::value::{distinct_keys, Field, FieldView, Scalar, Schema, SchemaView, Value, ValueView};
use vstd::utf8::encode_utf8;
use crate::{Error, Fault, Reflect, Visitor};
use vstd::prelude::*;

verus! {

/// The nanoseconds in a second.
pub const NANOS_PER_SEC: u32 = 1_000_000_000;

/// Whether a fixed-width value is one that can be held: a duration's
/// nanoseconds stay below a second.
pub open spec fn scalar_ok(x: Scalar) -> bool {
    x matches Scalar::Duration(_, nanos) ==> nanos < NANOS_PER_SEC
}

/// Whether `v` has the shape `s`, and every node that it refers to, directly
/// or through other nodes, is in `g` with the shape that the reference
/// promises. A string, a list or a mapping is no longer than the 32-bit
/// count before it can say, and a mapping holds no key twice.
pub open spec fn typed(g: Graph, s: SchemaView, v: ValueView) -> bool
    decreases s,
{
    match s {
        SchemaView::Scalar(k) => v matches ValueView::Scalar(x) && x.kind() == k && scalar_ok(x),
        SchemaView::Text => v matches ValueView::Text(t) && encode_utf8(t).len() <= u32::MAX,
        SchemaView::List(e) => v matches ValueView::List(items) && items.len() <= u32::MAX
            && forall|i: int| 0 <= i < items.len() ==> typed(g, *e, #[trigger] items[i]),
        SchemaView::Dict(k, w) => v matches ValueView::Dict(entries) && entries.len() <= u32::MAX
            && distinct_keys(entries) && forall|i: int|
            0 <= i < entries.len() ==> typed(g, *k, (#[trigger] entries[i]).0) && typed(
                g,
                *w,
                entries[i].1,
            ),
        SchemaView::Maybe(e) => v matches ValueView::Maybe(o) && (o matches Some(inner) ==> typed(
            g,
            *e,
            *inner,
        )),
        SchemaView::Record(fields) => v matches ValueView::Record(members) && typed_row(
            g,
            fields,
            members,
        ),
        SchemaView::Choice(variants) => v matches ValueView::Choice(tag, members) && tag
            < variants.len() && typed_row(g, variants[tag as int], members),
        SchemaView::Node(inner) => v matches ValueView::Node(id) && id > 0 && g.contains_key(id)
            && g[id].schema == *inner && typed(g, *inner, g[id].value),
    }
}

/// Whether `members` are as many as `fields` and each has the shape of its
/// field.
pub open spec fn typed_row(g: Graph, fields: Seq<FieldView>, members: Seq<ValueView>) -> bool
    decreases fields,
{
    members.len() == fields.len() && forall|i: int|
        0 <= i < fields.len() ==> typed(g, (#[trigger] fields[i]).ty, members[i])
}

/// A list has the shape of a list when each of its items has the shape of
/// an item.
pub proof fn lemma_typed_list(g: Graph, e: SchemaView, items: Seq<ValueView>)
    ensures
        typed(g, SchemaView::List(Box::new(e)), ValueView::List(items)) <==> (items.len()
            <= u32::MAX && forall|i: int|
            0 <= i < items.len() ==> typed(g, e, #[trigger] items[i])),
{
    let s = SchemaView::List(Box::new(e));
    let v = ValueView::List(items);
    if typed(g, s, v) {
        assert(v matches ValueView::List(xs) && forall|i: int|
            0 <= i < xs.len() ==> typed(g, e, #[trigger] xs[i]));
        assert forall|i: int| 0 <= i < items.len() implies typed(g, e, #[trigger] items[i]) by {
            assert(typed(g, e, v->List_0[i]));
        }
    }
    if items.len() <= u32::MAX && forall|i: int|
        0 <= i < items.len() ==> typed(g, e, #[trigger] items[i]) {
        assert(typed(g, s, v));
    }
}

/// A mapping has the shape of a mapping when each key has the shape of a key
/// and each value the shape of a value.
pub proof fn lemma_typed_dict(
    g: Graph,
    k: SchemaView,
    w: SchemaView,
    entries: Seq<(ValueView, ValueView)>,
)
    ensures
        typed(g, SchemaView::Dict(Box::new(k), Box::new(w)), ValueView::Dict(entries)) <==> (
        entries.len() <= u32::MAX && distinct_keys(entries) && forall|i: int|
            0 <= i < entries.len() ==> typed(g, k, (#[trigger] entries[i]).0) && typed(
                g,
                w,
                entries[i].1,
            )),
{
    let s = SchemaView::Dict(Box::new(k), Box::new(w));
    let v = ValueView::Dict(entries);
    if typed(g, s, v) {
        assert(v matches ValueView::Dict(xs) && forall|i: int|
            0 <= i < xs.len() ==> typed(g, k, (#[trigger] xs[i]).0) && typed(g, w, xs[i].1));
        assert forall|i: int| 0 <= i < entries.len() implies typed(
            g,
            k,
            (#[trigger] entries[i]).0,
        ) && typed(g, w, entries[i].1) by {
            assert(typed(g, k, v->Dict_0[i].0));
        }
    }
    if entries.len() <= u32::MAX && distinct_keys(entries) && forall|i: int|
        0 <= i < entries.len() ==> typed(g, k, (#[trigger] entries[i]).0) && typed(
            g,
            w,
            entries[i].1,
        ) {
        assert(typed(g, s, v));
    }
}

/// The members of a row have the shapes of the fields when there are as many
/// and each has the shape of its field.
pub proof fn lemma_typed_row(g: Graph, fields: Seq<FieldView>, members: Seq<ValueView>)
    ensures
        typed_row(g, fields, members) <==> (members.len() == fields.len() && forall|i: int|
            0 <= i < fields.len() ==> typed(g, (#[trigger] fields[i]).ty, members[i])),
{
    if typed_row(g, fields, members) {
        assert forall|i: int| 0 <= i < fields.len() implies typed(
            g,
            (#[trigger] fields[i]).ty,
            members[i],
        ) by {
            assert(typed(g, fields[i].ty, members[i]));
        }
    }
    if members.len() == fields.len() && forall|i: int|
        0 <= i < fields.len() ==> typed(g, (#[trigger] fields[i]).ty, members[i]) {
        assert(typed_row(g, fields, members));
    }
}

/// The bytes of a fixed-width value.
pub open spec fn scalar_wire(x: Scalar) -> Seq<u8> {
    match x {
        Scalar::U8(n) => seq![n],
        Scalar::I8(n) => seq![bits_i8(n)],
        Scalar::U16(n) => be_u16(n),
        Scalar::I16(n) => be_u16(bits_i16(n)),
        Scalar::U32(n) => be_u32(n),
        Scalar::I32(n) => be_u32(bits_i32(n)),
        Scalar::U64(n) => be_u64(n),
        Scalar::I64(n) => be_u64(bits_i64(n)),
        Scalar::F32(bits) => be_u32(bits),
        Scalar::F64(bits) => be_u64(bits),
        Scalar::Bool(b) => seq![if b { 1u8 } else { 0u8 }],
        Scalar::Duration(secs, nanos) => be_u64(secs) + be_u32(nanos),
    }
}

/// The bytes of a string: the length of its UTF-8 form, then that form.
pub open spec fn text_wire(t: Seq<char>) -> Seq<u8> {
    <String as ToStream>::wire(t)
}

/// The bytes of `v`, a value of the shape `s`. A reference to a node is
/// written as the node's id and then the node's own value.
pub open spec fn wire(g: Graph, s: SchemaView, v: ValueView) -> Seq<u8>
    decreases s, 1nat, 0nat,
{
    match (s, v) {
        (SchemaView::Scalar(_), ValueView::Scalar(x)) => scalar_wire(x),
        (SchemaView::Text, ValueView::Text(t)) => text_wire(t),
        (SchemaView::List(e), ValueView::List(items)) => be_u32(count_of(items.len())) + wire_items(
            g,
            *e,
            items,
            items.len(),
        ),
        (SchemaView::Dict(_, _), ValueView::Dict(entries)) => be_u32(count_of(entries.len()))
            + wire_entries(g, s, entries, entries.len()),
        (SchemaView::Maybe(e), ValueView::Maybe(o)) => match o {
            Some(inner) => seq![1u8] + wire(g, *e, *inner),
            None => seq![0u8],
        },
        (SchemaView::Record(fields), ValueView::Record(members)) => wire_row(
            g,
            fields,
            members,
            fields.len(),
        ),
        (SchemaView::Choice(variants), ValueView::Choice(tag, members)) => seq![tag] + (if tag
            < variants.len() {
            wire_row(g, variants[tag as int], members, variants[tag as int].len())
        } else {
            Seq::empty()
        }),
        (SchemaView::Node(inner), ValueView::Node(id)) => be_u32(id) + (if g.contains_key(id) {
            wire(g, *inner, g[id].value)
        } else {
            Seq::empty()
        }),
        _ => Seq::empty(),
    }
}

/// The bytes of the first `n` of `items`, each of the shape `e`.
pub open spec fn wire_items(g: Graph, e: SchemaView, items: Seq<ValueView>, n: nat) -> Seq<u8>
    decreases e, 2nat, n,
{
    if n == 0 {
        Seq::empty()
    } else {
        wire_items(g, e, items, (n - 1) as nat) + wire(g, e, items[n - 1])
    }
}

/// The bytes of the first `n` of `entries` of a mapping of the shape `s`:
/// for each, the key and then the value.
pub open spec fn wire_entries(
    g: Graph,
    s: SchemaView,
    entries: Seq<(ValueView, ValueView)>,
    n: nat,
) -> Seq<u8>
    decreases s, 0nat, n,
{
    match s {
        SchemaView::Dict(k, w) => if n == 0 {
            Seq::empty()
        } else {
            wire_entries(g, s, entries, (n - 1) as nat) + (wire(g, *k, entries[n - 1].0) + wire(
                g,
                *w,
                entries[n - 1].1,
            ))
        },
        _ => Seq::empty(),
    }
}

/// The bytes of the first `n` of `members`, each of the shape of its field.
pub open spec fn wire_row(g: Graph, fields: Seq<FieldView>, members: Seq<ValueView>, n: nat) -> Seq<
    u8,
>
    decreases fields, 0nat, n,
{
    if n == 0 || n > fields.len() {
        Seq::empty()
    } else {
        wire_row(g, fields, members, (n - 1) as nat) + wire(g, fields[n - 1].ty, members[n - 1])
    }
}

/// Appends the bytes of a fixed-width value to `out`.
pub fn write_scalar(out: &mut Vec<u8>, x: Scalar)
    ensures
        final(out)@ == old(out)@ + scalar_wire(x),
{
    match x {
        Scalar::U8(n) => {
            let _ = n.encode(out);
        },
        Scalar::I8(n) => {
            let _ = n.encode(out);
        },
        Scalar::U16(n) => {
            let _ = n.encode(out);
        },
        Scalar::I16(n) => {
            let _ = n.encode(out);
        },
        Scalar::U32(n) => {
            let _ = n.encode(out);
        },
        Scalar::I32(n) => {
            let _ = n.encode(out);
        },
        Scalar::U64(n) => {
            let _ = n.encode(out);
        },
        Scalar::I64(n) => {
            let _ = n.encode(out);
        },
        Scalar::F32(bits) => {
            let _ = bits.encode(out);
        },
        Scalar::F64(bits) => {
            let _ = bits.encode(out);
        },
        Scalar::Bool(b) => {
            let _ = b.encode(out);
        },
        Scalar::Duration(secs, nanos) => {
            let _ = secs.encode(out);
            let _ = nanos.encode(out);
            assert(out@ == old(out)@ + (be_u64(secs) + be_u32(nanos)));
        },
    }
}

/// Appends the bytes of the members of a record or variant to `out`, or
/// reports that the members do not have the shapes of the fields.
pub fn write_row(out: &mut Vec<u8>, ctx: &NodeContext, fields: &Vec<Field>, members: &Vec<Value>) -> (r:
    Result<(), Error>)
    ensures
        typed_row(ctx@.nodes, crate::value::fields_view(*fields), crate::value::values_view(*members))
            ==> r is Ok && final(out)@ == old(out)@ + wire_row(
            ctx@.nodes,
            crate::value::fields_view(*fields),
            crate::value::values_view(*members),
            fields@.len(),
        ),
        !typed_row(
            ctx@.nodes,
            crate::value::fields_view(*fields),
            crate::value::values_view(*members),
        ) ==> r is Err && r->Err_0.fault() == Fault::Violation,
    decreases fields,
{
    let ghost g = ctx@.nodes;
    let ghost fs = crate::value::fields_view(*fields);
    let ghost ms = crate::value::values_view(*members);
    proof {
        lemma_typed_row(g, fs, ms);
    }
    if members.len() != fields.len() {
        return Err(Error::custom("a row with the wrong number of members"));
    }
    let mut i: usize = 0;
    while i < fields.len()
        invariant
            i <= fields.len(),
            members.len() == fields.len(),
            g == ctx@.nodes,
            fs == crate::value::fields_view(*fields),
            ms == crate::value::values_view(*members),
            typed_row(g, fs, ms) <==> (ms.len() == fs.len() && forall|k: int|
                0 <= k < fs.len() ==> typed(g, (#[trigger] fs[k]).ty, ms[k])),
            forall|k: int| 0 <= k < i ==> typed(g, (#[trigger] fs[k]).ty, ms[k]),
            out@ == old(out)@ + wire_row(g, fs, ms, i as nat),
        decreases fields.len() - i,
    {
        let r = write_value(out, ctx, &fields[i].ty, &members[i]);
        if r.is_err() {
            assert(!typed(g, fs[i as int].ty, ms[i as int]));
            return r;
        }
        i = i + 1;
    }
    Ok(())
}

/// Appends the bytes of `val`, a value of the shape `schema`, to `out`; a
/// reference to a node is followed into `ctx`. Reports a value that does not
/// have the shape, or that refers to a node which `ctx` does not hold with
/// the shape that the reference promises.
pub fn write_value(out: &mut Vec<u8>, ctx: &NodeContext, schema: &Schema, val: &Value) -> (r: Result<
    (),
    Error,
>)
    ensures
        typed(ctx@.nodes, schema@, val@) ==> r is Ok && final(out)@ == old(out)@ + wire(
            ctx@.nodes,
            schema@,
            val@,
        ),
        !typed(ctx@.nodes, schema@, val@) ==> r is Err && r->Err_0.fault() == Fault::Violation,
    decreases schema,
{
    let ghost g = ctx@.nodes;
    match (schema, val) {
        (Schema::Scalar(k), Value::Scalar(x)) => {
            if x.kind() != *k {
                return Err(Error::custom("a value of another kind"));
            }
            if let Scalar::Duration(_, nanos) = x {
                if *nanos >= NANOS_PER_SEC {
                    return Err(Error::custom("a duration with too many nanoseconds"));
                }
            }
            write_scalar(out, *x);
            Ok(())
        },
        (Schema::Text, Value::Text(t)) => {
            if t.as_str().as_bytes().len() > u32::MAX as usize {
                return Err(Error::custom("a string too long for its count"));
            }
            let _ = t.encode(out);
            Ok(())
        },
        (Schema::List(e), Value::List(items)) => {
            proof {
                lemma_typed_list(g, (**e)@, crate::value::values_view(*items));
            }
            if items.len() > u32::MAX as usize {
                return Err(Error::custom("a list too long for its count"));
            }
            let n = count(items.len());
            let _ = n.encode(out);
            let ghost vs = crate::value::values_view(*items);
            proof {
                lemma_typed_list(g, (**e)@, vs);
            }
            let mut i: usize = 0;
            while i < items.len()
                invariant
                    i <= items.len(),
                    *schema == Schema::List(*e),
                    *val == Value::List(*items),
                    g == ctx@.nodes,
                    vs == crate::value::values_view(*items),
                    vs.len() <= u32::MAX,
                    typed(g, schema@, val@) <==> (vs.len() <= u32::MAX && forall|k: int|
                        0 <= k < vs.len() ==> typed(g, (**e)@, #[trigger] vs[k])),
                    forall|k: int| 0 <= k < i ==> typed(g, (**e)@, #[trigger] vs[k]),
                    out@ == old(out)@ + be_u32(n) + wire_items(g, (**e)@, vs, i as nat),
                decreases items.len() - i,
            {
                let r = write_value(out, ctx, e, &items[i]);
                if r.is_err() {
                    assert(!typed(g, (**e)@, vs[i as int]));
                    return r;
                }
                i = i + 1;
            }
            assert(out@ == old(out)@ + (be_u32(n) + wire_items(g, (**e)@, vs, i as nat)));
            Ok(())
        },
        (Schema::Dict(k, w), Value::Dict(entries)) => {
            let ghost es = val@->Dict_0;
            proof {
                lemma_typed_dict(g, (**k)@, (**w)@, es);
                assert(es =~= crate::value::entries_view(*entries));
            }
            if entries.len() > u32::MAX as usize {
                return Err(Error::custom("a mapping too long for its count"));
            }
            if !crate::value::keys_distinct(entries) {
                return Err(Error::custom("a mapping with a key twice"));
            }
            let n = count(entries.len());
            let _ = n.encode(out);
            let mut i: usize = 0;
            while i < entries.len()
                invariant
                    i <= entries.len(),
                    *schema == Schema::Dict(*k, *w),
                    *val == Value::Dict(*entries),
                    g == ctx@.nodes,
                    es.len() == entries.len(),
                    es.len() <= u32::MAX,
                    distinct_keys(es),
                    typed(g, schema@, val@) <==> (es.len() <= u32::MAX && distinct_keys(es)
                        && forall|j: int|
                        0 <= j < es.len() ==> typed(g, (**k)@, (#[trigger] es[j]).0) && typed(
                            g,
                            (**w)@,
                            es[j].1,
                        )),
                    forall|j: int|
                        0 <= j < entries.len() ==> (#[trigger] es[j]) == (
                            entries@[j].key@,
                            entries@[j].val@,
                        ),
                    forall|j: int|
                        0 <= j < i ==> typed(g, (**k)@, (#[trigger] es[j]).0) && typed(
                            g,
                            (**w)@,
                            es[j].1,
                        ),
                    out@ == old(out)@ + be_u32(n) + wire_entries(g, schema@, es, i as nat),
                decreases entries.len() - i,
            {
                let ghost before = out@;
                let r = write_value(out, ctx, k, &entries[i].key);
                if r.is_err() {
                    assert(!typed(g, (**k)@, es[i as int].0));
                    return r;
                }
                let r = write_value(out, ctx, w, &entries[i].val);
                if r.is_err() {
                    assert(!typed(g, (**w)@, es[i as int].1));
                    return r;
                }
                assert(out@ == before + (wire(g, (**k)@, es[i as int].0) + wire(
                    g,
                    (**w)@,
                    es[i as int].1,
                )));
                i = i + 1;
            }
            assert(out@ == old(out)@ + (be_u32(n) + wire_entries(g, schema@, es, i as nat)));
            Ok(())
        },
        (Schema::Maybe(e), Value::Maybe(o)) => match o {
            Some(inner) => {
                out.push(1u8);
                let r = write_value(out, ctx, e, inner);
                if r.is_ok() {
                    assert(out@ == old(out)@ + (seq![1u8] + wire(g, (**e)@, (**inner)@)));
                }
                r
            },
            None => {
                out.push(0u8);
                assert(out@ == old(out)@ + seq![0u8]);
                Ok(())
            },
        },
        (Schema::Record(fields), Value::Record(members)) => write_row(out, ctx, fields, members),
        (Schema::Choice(variants), Value::Choice(tag, members)) => {
            if (*tag as usize) >= variants.len() {
                return Err(Error::custom("a variant that the enum does not have"));
            }
            out.push(*tag);
            let r = write_row(out, ctx, &variants[*tag as usize], members);
            if r.is_ok() {
                assert(out@ == old(out)@ + (seq![*tag] + wire_row(
                    g,
                    schema@->Choice_0[*tag as int],
                    val@->Choice_1,
                    schema@->Choice_0[*tag as int].len(),
                )));
            }
            r
        },
        (Schema::Node(inner), Value::Node(id)) => {
            if *id == 0 {
                return Err(Error::custom("a reference to a node without an id"));
            }
            match ctx.get(*id) {
                None => Err(Error::custom("a reference to a node that is not there")),
                Some(node) => {
                    if !node.schema.same(inner) {
                        return Err(Error::custom("a reference to a node of another shape"));
                    }
                    let _ = id.encode(out);
                    let r = write_value(out, ctx, inner, &node.val);
                    if r.is_ok() {
                        assert(out@ == old(out)@ + (be_u32(*id) + wire(g, (**inner)@, node.val@)));
                    }
                    r
                },
            }
        },
        _ => Err(Error::custom("a value of another shape")),
    }
}

/// A visitor that writes what it is shown to a byte buffer.
pub struct Serializer {
    /// The bytes written so far.
    pub writer: Vec<u8>,
    /// The id of the node whose value is being written, if it is a node's.
    pub current_node: Option<u32>,
}

impl Serializer {
    /// A serializer that goes on after the bytes of `writer`.
    pub fn new(writer: Vec<u8>) -> (s: Serializer)
        ensures
            s.writer == writer,
            s.current_node is None,
    {
        Serializer { writer, current_node: None }
    }

    /// A serializer that goes on after the bytes of `writer`, for the value
    /// of the node `current_node`.
    pub fn with_current_node(writer: Vec<u8>, current_node: u32) -> (s: Serializer)
        ensures
            s.writer == writer,
            s.current_node == Some(current_node),
    {
        Serializer { writer, current_node: Some(current_node) }
    }
}

impl Visitor for Serializer {
    /// Writes the member, whatever its name. Where the serializer has a
    /// current node, that node is then the parent of every node that the
    /// member refers to.
    fn visit(&mut self, ctx: &mut NodeContext, name: &str, schema: &Schema, val: &mut Value) -> (r:
        Result<(), Error>)
        ensures
            final(val)@ == old(val)@,
            final(self).current_node == old(self).current_node,
            typed(old(ctx)@.nodes, schema@, old(val)@) ==> r is Ok && final(self).writer@ == old(self).writer@ + wire(old(ctx)@.nodes, schema@, old(val)@) && final(ctx)@ == (ContextView {
                nodes: taken_in(old(ctx)@.nodes, old(self).current_node, schema@, old(val)@),
                ..old(ctx)@
            }),
            !typed(old(ctx)@.nodes, schema@, old(val)@) ==> r is Err && r->Err_0.fault()
                == Fault::Violation && final(ctx)@ == old(ctx)@,
    {
        match write_value(&mut self.writer, ctx, schema, val) {
            Ok(()) => {
                ctx.take_in(self.current_node, schema, val);
                Ok(())
            },
            Err(e) => Err(e),
        }
    }
}

impl Reflect<Serializer> for Value {
    /// Writes the value. Where the serializer has a current node, that node
    /// is then the parent of every node that the value refers to.
    fn reflect(&mut self, ctx: &mut NodeContext, schema: &Schema, visitor: &mut Serializer) -> (r:
        Result<(), Error>)
        ensures
            final(self)@ == old(self)@,
            final(visitor).current_node == old(visitor).current_node,
            typed(old(ctx)@.nodes, schema@, old(self)@) ==> r is Ok && final(visitor).writer@
                == old(visitor).writer@ + wire(old(ctx)@.nodes, schema@, old(self)@) && final(ctx)@
                == (ContextView {
                nodes: taken_in(old(ctx)@.nodes, old(visitor).current_node, schema@, old(self)@),
                ..old(ctx)@
            }),
            !typed(old(ctx)@.nodes, schema@, old(self)@) ==> r is Err && r->Err_0.fault()
                == Fault::Violation && final(ctx)@ == old(ctx)@,
    {
        match write_value(&mut visitor.writer, ctx, schema, self) {
            Ok(()) => {
                ctx.take_in(visitor.current_node, schema, self);
                Ok(())
            },
            Err(e) => Err(e),
        }
    }
}

} // verus!
