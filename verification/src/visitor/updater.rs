//! Small changes to a value, as they travel from the server to its clients.
//!
//! A change names a member of a node's value by its tag and says what
//! happens to it: it is replaced, or, where it is a list or a mapping, an
//! item is added or taken away. The server writes the change and makes it on
//! its own value; a client reads the change and makes it on its copy.

use crate::encode::{be_u32, Cursor, FromStream, ToStream};
use crate::links::taken_in;
use crate::node::{ContextView, Graph, NodeContext, Role};
use crate::value::{dict_cut, dict_put, entries_view, find_key, values_view};
use crate::value::{Scalar, Schema, SchemaView, Value, ValueView};
use crate::visitor::deserializer::{parse, put_entry, read_value};
use crate::visitor::serializer::{typed, wire, write_value};
use crate::visitor::deserializer::Deserializer;
use crate::visitor::serializer::Serializer;
use crate::{Error, Fault, Reflect, Visitor};
use vstd::prelude::*;

verus! {

/// The kinds of change.
#[derive(Clone, Copy, PartialEq, Eq, Debug, Structural)]
pub enum UpdateOp {
    /// The whole value is sent anew.
    Replace,
    /// One member is sent anew.
    Update,
    /// An item is added at the end of a list.
    VecPush,
    /// An item is put into a list at an index.
    VecInsert,
    /// The item at an index is taken out of a list.
    VecRemove,
    /// A list is emptied.
    VecClear,
    /// A key of a mapping is given a value.
    MapInsert,
    /// A key is taken out of a mapping.
    MapRemove,
    /// A mapping is emptied.
    MapClear,
}

impl UpdateOp {
    /// The byte that stands for the kind on the wire.
    pub open spec fn spec_code(self) -> u8 {
        match self {
            UpdateOp::Replace => 0,
            UpdateOp::Update => 1,
            UpdateOp::VecPush => 2,
            UpdateOp::VecInsert => 3,
            UpdateOp::VecRemove => 4,
            UpdateOp::VecClear => 5,
            UpdateOp::MapInsert => 6,
            UpdateOp::MapRemove => 7,
            UpdateOp::MapClear => 8,
        }
    }

    /// The kind that a byte stands for, if it stands for one.
    pub open spec fn spec_from_code(code: u8) -> Option<UpdateOp> {
        if code == 0 {
            Some(UpdateOp::Replace)
        } else if code == 1 {
            Some(UpdateOp::Update)
        } else if code == 2 {
            Some(UpdateOp::VecPush)
        } else if code == 3 {
            Some(UpdateOp::VecInsert)
        } else if code == 4 {
            Some(UpdateOp::VecRemove)
        } else if code == 5 {
            Some(UpdateOp::VecClear)
        } else if code == 6 {
            Some(UpdateOp::MapInsert)
        } else if code == 7 {
            Some(UpdateOp::MapRemove)
        } else if code == 8 {
            Some(UpdateOp::MapClear)
        } else {
            None
        }
    }

    /// The byte that stands for the kind on the wire.
    #[verifier::when_used_as_spec(spec_code)]
    pub fn code(self) -> (c: u8)
        ensures
            c == self.spec_code(),
            UpdateOp::spec_from_code(c) == Some(self),
    {
        match self {
            UpdateOp::Replace => 0,
            UpdateOp::Update => 1,
            UpdateOp::VecPush => 2,
            UpdateOp::VecInsert => 3,
            UpdateOp::VecRemove => 4,
            UpdateOp::VecClear => 5,
            UpdateOp::MapInsert => 6,
            UpdateOp::MapRemove => 7,
            UpdateOp::MapClear => 8,
        }
    }

    /// The kind that a byte stands for, if it stands for one.
    #[verifier::when_used_as_spec(spec_from_code)]
    pub fn from_code(code: u8) -> (op: Option<UpdateOp>)
        ensures
            op == UpdateOp::spec_from_code(code),
    {
        if code == 0 {
            Some(UpdateOp::Replace)
        } else if code == 1 {
            Some(UpdateOp::Update)
        } else if code == 2 {
            Some(UpdateOp::VecPush)
        } else if code == 3 {
            Some(UpdateOp::VecInsert)
        } else if code == 4 {
            Some(UpdateOp::VecRemove)
        } else if code == 5 {
            Some(UpdateOp::VecClear)
        } else if code == 6 {
            Some(UpdateOp::MapInsert)
        } else if code == 7 {
            Some(UpdateOp::MapRemove)
        } else if code == 8 {
            Some(UpdateOp::MapClear)
        } else {
            None
        }
    }
}

impl Default for UpdateOp {
    fn default() -> (op: UpdateOp)
        ensures
            op == UpdateOp::Replace,
    {
        UpdateOp::Replace
    }
}

/// A change to one value, with what it carries.
#[derive(Debug)]
pub enum Edit {
    /// The value becomes the one given.
    Assign(Value),
    /// The item is added at the end of the list.
    Push(Value),
    /// The item is put into the list at the index.
    Insert(u32, Value),
    /// The item at the index is taken out of the list.
    Remove(u32),
    /// The list is emptied.
    Clear,
    /// The key of the mapping is given the value.
    Put(Value, Value),
    /// The key is taken out of the mapping.
    Cut(Value),
    /// The mapping is emptied.
    Wipe,
}

/// The model of an `Edit`.
pub ghost enum EditView {
    Assign(ValueView),
    Push(ValueView),
    Insert(u32, ValueView),
    Remove(u32),
    Clear,
    Put(ValueView, ValueView),
    Cut(ValueView),
    Wipe,
}

impl View for Edit {
    type V = EditView;

    open spec fn view(&self) -> EditView {
        match self {
            Edit::Assign(x) => EditView::Assign(x@),
            Edit::Push(x) => EditView::Push(x@),
            Edit::Insert(i, x) => EditView::Insert(*i, x@),
            Edit::Remove(i) => EditView::Remove(*i),
            Edit::Clear => EditView::Clear,
            Edit::Put(k, v) => EditView::Put(k@, v@),
            Edit::Cut(k) => EditView::Cut(k@),
            Edit::Wipe => EditView::Wipe,
        }
    }
}

/// Whether a change is of the given kind. A change that sets the value is
/// of both the kinds that send a value anew.
pub open spec fn edit_is(c: EditView, op: UpdateOp) -> bool {
    match c {
        EditView::Assign(_) => op == UpdateOp::Replace || op == UpdateOp::Update,
        EditView::Push(_) => op == UpdateOp::VecPush,
        EditView::Insert(_, _) => op == UpdateOp::VecInsert,
        EditView::Remove(_) => op == UpdateOp::VecRemove,
        EditView::Clear => op == UpdateOp::VecClear,
        EditView::Put(_, _) => op == UpdateOp::MapInsert,
        EditView::Cut(_) => op == UpdateOp::MapRemove,
        EditView::Wipe => op == UpdateOp::MapClear,
    }
}

/// The value after the change `c` has been made to `target`. A change to a
/// list that meets something else, a change to a mapping that meets
/// something else, and an index beyond the list are refused.
pub open spec fn changed(target: ValueView, c: EditView) -> Result<ValueView, Fault> {
    match c {
        EditView::Assign(x) => Ok(x),
        EditView::Push(x) => match target {
            ValueView::List(items) => Ok(ValueView::List(items.push(x))),
            _ => Err(Fault::Violation),
        },
        EditView::Insert(i, x) => match target {
            ValueView::List(items) => if i <= items.len() {
                Ok(ValueView::List(items.insert(i as int, x)))
            } else {
                Err(Fault::Violation)
            },
            _ => Err(Fault::Violation),
        },
        EditView::Remove(i) => match target {
            ValueView::List(items) => if i < items.len() {
                Ok(ValueView::List(items.remove(i as int)))
            } else {
                Err(Fault::Violation)
            },
            _ => Err(Fault::Violation),
        },
        EditView::Clear => match target {
            ValueView::List(_) => Ok(ValueView::List(Seq::empty())),
            _ => Err(Fault::Violation),
        },
        EditView::Put(k, v) => match target {
            ValueView::Dict(entries) => Ok(ValueView::Dict(dict_put(entries, k, v))),
            _ => Err(Fault::Violation),
        },
        EditView::Cut(k) => match target {
            ValueView::Dict(entries) => Ok(ValueView::Dict(dict_cut(entries, k))),
            _ => Err(Fault::Violation),
        },
        EditView::Wipe => match target {
            ValueView::Dict(_) => Ok(ValueView::Dict(Seq::empty())),
            _ => Err(Fault::Violation),
        },
    }
}

/// Whether the change `c` fits a value of the shape `s`: what it carries has
/// the shape that the value, its items, or its keys and values have.
pub open spec fn edit_typed(g: Graph, s: SchemaView, c: EditView) -> bool {
    match c {
        EditView::Assign(x) => typed(g, s, x),
        EditView::Push(x) => s matches SchemaView::List(e) && typed(g, *e, x),
        EditView::Insert(_, x) => s matches SchemaView::List(e) && typed(g, *e, x),
        EditView::Remove(_) => s is List,
        EditView::Clear => s is List,
        EditView::Put(k, v) => s matches SchemaView::Dict(ks, vs) && typed(g, *ks, k) && typed(
            g,
            *vs,
            v,
        ),
        EditView::Cut(k) => s matches SchemaView::Dict(ks, _) && typed(g, *ks, k),
        EditView::Wipe => s is Dict,
    }
}

/// The bytes of the change `c` to a value of the shape `s`: an index as four
/// bytes, and each value that the change carries as the value is written.
pub open spec fn edit_wire(g: Graph, s: SchemaView, c: EditView) -> Seq<u8> {
    match c {
        EditView::Assign(x) => wire(g, s, x),
        EditView::Push(x) => wire(g, *s->List_0, x),
        EditView::Insert(i, x) => be_u32(i) + wire(g, *s->List_0, x),
        EditView::Remove(i) => be_u32(i),
        EditView::Clear => Seq::empty(),
        EditView::Put(k, v) => wire(g, *s->Dict_0, k) + wire(g, *s->Dict_1, v),
        EditView::Cut(k) => wire(g, *s->Dict_0, k),
        EditView::Wipe => Seq::empty(),
    }
}

/// What reading a change yields: the nodes as they stand afterwards, the
/// change, and the number of bytes that it took.
pub ghost struct ReadEdit {
    pub graph: Graph,
    pub edit: EditView,
    pub used: int,
}

/// What the front of `bytes` holds when read as a change of the kind `op` to
/// a value of the shape `s`. A change to a list is refused where the shape
/// is not a list, a change to a mapping where it is not a mapping.
pub open spec fn edit_parse(g: Graph, role: Role, s: SchemaView, op: UpdateOp, bytes: Seq<u8>) -> Result<
    ReadEdit,
    Fault,
> {
    match op {
        UpdateOp::Replace | UpdateOp::Update => match parse(g, role, s, bytes) {
            Ok(r) => Ok(ReadEdit { graph: r.graph, edit: EditView::Assign(r.value), used: r.used }),
            Err(f) => Err(f),
        },
        UpdateOp::VecPush => match s {
            SchemaView::List(e) => match parse(g, role, *e, bytes) {
                Ok(r) => Ok(
                    ReadEdit { graph: r.graph, edit: EditView::Push(r.value), used: r.used },
                ),
                Err(f) => Err(f),
            },
            _ => Err(Fault::Violation),
        },
        UpdateOp::VecInsert => match s {
            SchemaView::List(e) => if bytes.len() < 4 {
                Err(Fault::Truncated)
            } else {
                match parse(g, role, *e, bytes.skip(4)) {
                    Ok(r) => Ok(
                        ReadEdit {
                            graph: r.graph,
                            edit: EditView::Insert(crate::encode::from_be_u32(bytes), r.value),
                            used: 4 + r.used,
                        },
                    ),
                    Err(f) => Err(f),
                }
            },
            _ => Err(Fault::Violation),
        },
        UpdateOp::VecRemove => match s {
            SchemaView::List(_) => if bytes.len() < 4 {
                Err(Fault::Truncated)
            } else {
                Ok(
                    ReadEdit {
                        graph: g,
                        edit: EditView::Remove(crate::encode::from_be_u32(bytes)),
                        used: 4,
                    },
                )
            },
            _ => Err(Fault::Violation),
        },
        UpdateOp::VecClear => match s {
            SchemaView::List(_) => Ok(ReadEdit { graph: g, edit: EditView::Clear, used: 0 }),
            _ => Err(Fault::Violation),
        },
        UpdateOp::MapInsert => match s {
            SchemaView::Dict(ks, vs) => match parse(g, role, *ks, bytes) {
                Err(f) => Err(f),
                Ok(rk) => match parse(rk.graph, role, *vs, bytes.skip(rk.used)) {
                    Err(f) => Err(f),
                    Ok(rv) => Ok(
                        ReadEdit {
                            graph: rv.graph,
                            edit: EditView::Put(rk.value, rv.value),
                            used: rk.used + rv.used,
                        },
                    ),
                },
            },
            _ => Err(Fault::Violation),
        },
        UpdateOp::MapRemove => match s {
            SchemaView::Dict(ks, _) => match parse(g, role, *ks, bytes) {
                Ok(r) => Ok(ReadEdit { graph: r.graph, edit: EditView::Cut(r.value), used: r.used }),
                Err(f) => Err(f),
            },
            _ => Err(Fault::Violation),
        },
        UpdateOp::MapClear => match s {
            SchemaView::Dict(_, _) => Ok(ReadEdit { graph: g, edit: EditView::Wipe, used: 0 }),
            _ => Err(Fault::Violation),
        },
    }
}

/// Makes the change `edit` to `target`, or refuses it and leaves the value
/// as it is.
pub fn apply_edit(target: &mut Value, edit: Edit) -> (r: Result<(), Error>)
    ensures
        match changed(old(target)@, edit@) {
            Ok(after) => r is Ok && final(target)@ == after,
            Err(f) => r is Err && r->Err_0.fault() == f && final(target)@ == old(target)@,
        },
{
    match edit {
        Edit::Assign(x) => {
            *target = x;
            Ok(())
        },
        Edit::Push(x) => match target {
            Value::List(items) => {
                let ghost before = values_view(*items);
                items.push(x);
                assert(values_view(*items) =~= before.push(x@));
                Ok(())
            },
            _ => Err(Error::custom("an item for what is not a list")),
        },
        Edit::Insert(i, x) => match target {
            Value::List(items) => {
                if (i as usize) <= items.len() {
                    let ghost before = values_view(*items);
                    items.insert(i as usize, x);
                    assert(values_view(*items) =~= before.insert(i as int, x@));
                    Ok(())
                } else {
                    Err(Error::custom("an index beyond the list"))
                }
            },
            _ => Err(Error::custom("an item for what is not a list")),
        },
        Edit::Remove(i) => match target {
            Value::List(items) => {
                if (i as usize) < items.len() {
                    let ghost before = values_view(*items);
                    let _ = items.remove(i as usize);
                    assert(values_view(*items) =~= before.remove(i as int));
                    Ok(())
                } else {
                    Err(Error::custom("an index beyond the list"))
                }
            },
            _ => Err(Error::custom("an index for what is not a list")),
        },
        Edit::Clear => match target {
            Value::List(items) => {
                items.clear();
                assert(values_view(*items) =~= Seq::<ValueView>::empty());
                Ok(())
            },
            _ => Err(Error::custom("what is not a list cannot be emptied as one")),
        },
        Edit::Put(k, v) => match target {
            Value::Dict(entries) => {
                let ghost before = entries_view(*entries);
                assert(old(target)@->Dict_0 =~= before);
                put_entry(entries, k, v);
                assert(final(target)@->Dict_0 =~= entries_view(*entries));
                Ok(())
            },
            _ => Err(Error::custom("an entry for what is not a mapping")),
        },
        Edit::Cut(k) => match target {
            Value::Dict(entries) => {
                let ghost before = entries_view(*entries);
                assert(old(target)@->Dict_0 =~= before);
                match find_key(entries, &k) {
                    Some(i) => {
                        let _ = entries.remove(i);
                        assert(entries_view(*entries) =~= before.remove(i as int));
                    },
                    None => {},
                }
                assert(final(target)@->Dict_0 =~= entries_view(*entries));
                Ok(())
            },
            _ => Err(Error::custom("a key for what is not a mapping")),
        },
        Edit::Wipe => match target {
            Value::Dict(entries) => {
                entries.clear();
                assert(final(target)@->Dict_0 =~= Seq::<(ValueView, ValueView)>::empty());
                Ok(())
            },
            _ => Err(Error::custom("what is not a mapping cannot be emptied as one")),
        },
    }
}

/// The model of a value that may be missing.
pub open spec fn maybe_view(o: Option<Value>) -> Option<ValueView> {
    match o {
        Some(v) => Some(v@),
        None => None,
    }
}

/// The change that the server means by a kind together with a key and a
/// value: for a list, the key is the index, held as an unsigned 32-bit
/// value. There is none where the kind sends a value anew, and none where a
/// part that the kind needs is missing.
pub open spec fn planned(op: UpdateOp, key: Option<ValueView>, val: Option<ValueView>) -> Option<
    EditView,
> {
    match op {
        UpdateOp::Replace | UpdateOp::Update => None,
        UpdateOp::VecPush => match val {
            Some(x) => Some(EditView::Push(x)),
            None => None,
        },
        UpdateOp::VecInsert => match (key, val) {
            (Some(ValueView::Scalar(Scalar::U32(i))), Some(x)) => Some(EditView::Insert(i, x)),
            _ => None,
        },
        UpdateOp::VecRemove => match key {
            Some(ValueView::Scalar(Scalar::U32(i))) => Some(EditView::Remove(i)),
            _ => None,
        },
        UpdateOp::VecClear => Some(EditView::Clear),
        UpdateOp::MapInsert => match (key, val) {
            (Some(k), Some(v)) => Some(EditView::Put(k, v)),
            _ => None,
        },
        UpdateOp::MapRemove => match key {
            Some(k) => Some(EditView::Cut(k)),
            None => None,
        },
        UpdateOp::MapClear => Some(EditView::Wipe),
    }
}

/// The change that a kind, a key and a value stand for.
pub fn plan(op: UpdateOp, key: Option<Value>, val: Option<Value>) -> (r: Option<Edit>)
    ensures
        match planned(op, maybe_view(key), maybe_view(val)) {
            Some(c) => r is Some && r->Some_0@ == c && edit_is(c, op),
            None => r is None,
        },
{
    match op {
        UpdateOp::Replace => None,
        UpdateOp::Update => None,
        UpdateOp::VecPush => match val {
            Some(x) => Some(Edit::Push(x)),
            None => None,
        },
        UpdateOp::VecInsert => match (key, val) {
            (Some(Value::Scalar(Scalar::U32(i))), Some(x)) => Some(Edit::Insert(i, x)),
            _ => None,
        },
        UpdateOp::VecRemove => match key {
            Some(Value::Scalar(Scalar::U32(i))) => Some(Edit::Remove(i)),
            _ => None,
        },
        UpdateOp::VecClear => Some(Edit::Clear),
        UpdateOp::MapInsert => match (key, val) {
            (Some(k), Some(v)) => Some(Edit::Put(k, v)),
            _ => None,
        },
        UpdateOp::MapRemove => match key {
            Some(k) => Some(Edit::Cut(k)),
            None => None,
        },
        UpdateOp::MapClear => Some(Edit::Wipe),
    }
}

/// Appends the bytes of `edit`, a change to a value of the shape `schema`, to
/// `out`, or reports that the change does not fit the shape.
pub fn write_edit(out: &mut Vec<u8>, ctx: &NodeContext, schema: &Schema, edit: &Edit) -> (r:
    Result<(), Error>)
    ensures
        edit_typed(ctx@.nodes, schema@, edit@) ==> r is Ok && final(out)@ == old(out)@
            + edit_wire(ctx@.nodes, schema@, edit@),
        !edit_typed(ctx@.nodes, schema@, edit@) ==> r is Err && r->Err_0.fault()
            == Fault::Violation,
{
    match edit {
        Edit::Assign(x) => write_value(out, ctx, schema, x),
        Edit::Push(x) => match schema {
            Schema::List(e) => write_value(out, ctx, e, x),
            _ => Err(Error::custom("an item for what is not a list")),
        },
        Edit::Insert(i, x) => match schema {
            Schema::List(e) => {
                let _ = i.encode(out);
                let r = write_value(out, ctx, e, x);
                if r.is_ok() {
                    assert(out@ == old(out)@ + (be_u32(*i) + wire(ctx@.nodes, (**e)@, x@)));
                }
                r
            },
            _ => Err(Error::custom("an item for what is not a list")),
        },
        Edit::Remove(i) => match schema {
            Schema::List(_) => {
                let _ = i.encode(out);
                Ok(())
            },
            _ => Err(Error::custom("an index for what is not a list")),
        },
        Edit::Clear => match schema {
            Schema::List(_) => {
                assert(out@ == old(out)@ + Seq::<u8>::empty());
                Ok(())
            },
            _ => Err(Error::custom("what is not a list cannot be emptied as one")),
        },
        Edit::Put(k, v) => match schema {
            Schema::Dict(ks, vs) => {
                let r = write_value(out, ctx, ks, k);
                if r.is_err() {
                    return r;
                }
                let r = write_value(out, ctx, vs, v);
                if r.is_ok() {
                    assert(out@ == old(out)@ + (wire(ctx@.nodes, (**ks)@, k@) + wire(
                        ctx@.nodes,
                        (**vs)@,
                        v@,
                    )));
                }
                r
            },
            _ => Err(Error::custom("an entry for what is not a mapping")),
        },
        Edit::Cut(k) => match schema {
            Schema::Dict(ks, _) => write_value(out, ctx, ks, k),
            _ => Err(Error::custom("a key for what is not a mapping")),
        },
        Edit::Wipe => match schema {
            Schema::Dict(_, _) => {
                assert(out@ == old(out)@ + Seq::<u8>::empty());
                Ok(())
            },
            _ => Err(Error::custom("what is not a mapping cannot be emptied as one")),
        },
    }
}

/// Whether `r`, `input` and `ctx` are what reading a change of the kind `op`
/// to a value of the shape `schema` leaves behind.
pub open spec fn read_edit_as(
    before: Cursor,
    after: Cursor,
    ctx_before: crate::node::ContextView,
    ctx_after: crate::node::ContextView,
    schema: SchemaView,
    op: UpdateOp,
    r: Result<Edit, Error>,
) -> bool {
    &&& after.bytes() == before.bytes()
    &&& ctx_after.role == ctx_before.role
    &&& ctx_after.next == ctx_before.next
    &&& ctx_after.outbox == ctx_before.outbox
    &&& match edit_parse(ctx_before.nodes, ctx_before.role, schema, op, before.remaining()) {
        Ok(read) => r is Ok && r->Ok_0@ == read.edit && edit_is(read.edit, op) && ctx_after.nodes
            == read.graph && 0 <= read.used <= before.remaining().len() && after.remaining()
            == before.remaining().skip(read.used),
        Err(f) => r is Err && r->Err_0.fault() == f,
    }
}

fn read_push(input: &mut Cursor, ctx: &mut NodeContext, schema: &Schema) -> (r: Result<Edit, Error>)
    ensures
        read_edit_as(
            *old(input),
            *final(input),
            old(ctx)@,
            final(ctx)@,
            schema@,
            UpdateOp::VecPush,
            r,
        ),
{
    match schema {
        Schema::List(e) => match read_value(input, ctx, e) {
            Ok(x) => Ok(Edit::Push(x)),
            Err(err) => Err(err),
        },
        _ => Err(Error::custom("an item for what is not a list")),
    }
}

fn read_insert(input: &mut Cursor, ctx: &mut NodeContext, schema: &Schema) -> (r: Result<
    Edit,
    Error,
>)
    ensures
        read_edit_as(
            *old(input),
            *final(input),
            old(ctx)@,
            final(ctx)@,
            schema@,
            UpdateOp::VecInsert,
            r,
        ),
{
    let ghost all = input.remaining();
    let ghost g0 = ctx@.nodes;
    let ghost role = ctx@.role;
    match schema {
        Schema::List(e) => {
            let i = match u32::decode(input) {
                Ok(i) => i,
                Err(err) => {
                    return Err(Error::of(err));
                },
            };
            let ghost here = parse(g0, role, (**e)@, all.skip(4));
            match read_value(input, ctx, e) {
                Ok(x) => {
                    assert(all.skip(4).skip(here->Ok_0.used) == all.skip(4 + here->Ok_0.used));
                    Ok(Edit::Insert(i, x))
                },
                Err(err) => Err(err),
            }
        },
        _ => Err(Error::custom("an item for what is not a list")),
    }
}

fn read_remove_or_clear(input: &mut Cursor, ctx: &mut NodeContext, schema: &Schema, op: UpdateOp) -> (r:
    Result<Edit, Error>)
    requires
        op == UpdateOp::VecRemove || op == UpdateOp::VecClear || op == UpdateOp::MapClear,
    ensures
        read_edit_as(*old(input), *final(input), old(ctx)@, final(ctx)@, schema@, op, r),
{
    let ghost all = input.remaining();
    match op {
        UpdateOp::VecRemove => match schema {
            Schema::List(_) => match u32::decode(input) {
                Ok(i) => Ok(Edit::Remove(i)),
                Err(err) => Err(Error::of(err)),
            },
            _ => Err(Error::custom("an index for what is not a list")),
        },
        UpdateOp::VecClear => match schema {
            Schema::List(_) => {
                assert(all.skip(0) == all);
                Ok(Edit::Clear)
            },
            _ => Err(Error::custom("what is not a list cannot be emptied as one")),
        },
        _ => match schema {
            Schema::Dict(_, _) => {
                assert(all.skip(0) == all);
                Ok(Edit::Wipe)
            },
            _ => Err(Error::custom("what is not a mapping cannot be emptied as one")),
        },
    }
}

fn read_put(input: &mut Cursor, ctx: &mut NodeContext, schema: &Schema) -> (r: Result<Edit, Error>)
    ensures
        read_edit_as(
            *old(input),
            *final(input),
            old(ctx)@,
            final(ctx)@,
            schema@,
            UpdateOp::MapInsert,
            r,
        ),
{
    let ghost all = input.remaining();
    let ghost g0 = ctx@.nodes;
    let ghost role = ctx@.role;
    match schema {
        Schema::Dict(ks, vs) => {
            let ghost for_key = parse(g0, role, (**ks)@, all);
            let k = match read_value(input, ctx, ks) {
                Ok(k) => k,
                Err(err) => {
                    return Err(err);
                },
            };
            let ghost used = for_key->Ok_0.used;
            let ghost for_val = parse(ctx@.nodes, role, (**vs)@, all.skip(used));
            match read_value(input, ctx, vs) {
                Ok(v) => {
                    assert(all.skip(used).skip(for_val->Ok_0.used) == all.skip(
                        used + for_val->Ok_0.used,
                    ));
                    Ok(Edit::Put(k, v))
                },
                Err(err) => Err(err),
            }
        },
        _ => Err(Error::custom("an entry for what is not a mapping")),
    }
}

fn read_cut(input: &mut Cursor, ctx: &mut NodeContext, schema: &Schema) -> (r: Result<Edit, Error>)
    ensures
        read_edit_as(
            *old(input),
            *final(input),
            old(ctx)@,
            final(ctx)@,
            schema@,
            UpdateOp::MapRemove,
            r,
        ),
{
    match schema {
        Schema::Dict(ks, _) => match read_value(input, ctx, ks) {
            Ok(k) => Ok(Edit::Cut(k)),
            Err(err) => Err(err),
        },
        _ => Err(Error::custom("a key for what is not a mapping")),
    }
}

/// Reads a change of the kind `op` to a value of the shape `schema`. The
/// nodes that the change's values refer to are stored in `ctx`.
pub fn read_edit(input: &mut Cursor, ctx: &mut NodeContext, schema: &Schema, op: UpdateOp) -> (r:
    Result<Edit, Error>)
    ensures
        read_edit_as(*old(input), *final(input), old(ctx)@, final(ctx)@, schema@, op, r),
{
    match op {
        UpdateOp::Replace | UpdateOp::Update => match read_value(input, ctx, schema) {
            Ok(x) => Ok(Edit::Assign(x)),
            Err(e) => Err(e),
        },
        UpdateOp::VecPush => read_push(input, ctx, schema),
        UpdateOp::VecInsert => read_insert(input, ctx, schema),
        UpdateOp::VecRemove => read_remove_or_clear(input, ctx, schema, op),
        UpdateOp::VecClear => read_remove_or_clear(input, ctx, schema, op),
        UpdateOp::MapInsert => read_put(input, ctx, schema),
        UpdateOp::MapRemove => read_cut(input, ctx, schema),
        UpdateOp::MapClear => read_remove_or_clear(input, ctx, schema, op),
    }
}

/// Where a tag stands among the members of a record.
pub ghost enum Hit {
    /// No member has the tag for its name.
    Nowhere,
    /// The member at this index has it, and no other.
    At(int),
    /// More than one member has it.
    Twice,
}

/// Where `tag` stands among the first `n` of `fields`.
pub open spec fn hit(fields: Seq<crate::value::FieldView>, tag: Seq<char>, n: nat) -> Hit
    decreases n,
{
    if n == 0 || n > fields.len() {
        Hit::Nowhere
    } else {
        match hit(fields, tag, (n - 1) as nat) {
            Hit::Twice => Hit::Twice,
            Hit::At(i) => if fields[n - 1].name == tag {
                Hit::Twice
            } else {
                Hit::At(i)
            },
            Hit::Nowhere => if fields[n - 1].name == tag {
                Hit::At(n - 1)
            } else {
                Hit::Nowhere
            },
        }
    }
}

/// A member that was found lies among those that were searched.
pub proof fn lemma_hit_bounds(fields: Seq<crate::value::FieldView>, tag: Seq<char>, n: nat)
    ensures
        hit(fields, tag, n) matches Hit::At(i) ==> 0 <= i < n && i < fields.len()
            && fields[i].name == tag,
    decreases n,
{
    if n > 0 && n <= fields.len() {
        lemma_hit_bounds(fields, tag, (n - 1) as nat);
    }
}

/// Finds the member with the name `tag`. A tag that more than one member has
/// is refused.
pub fn find_tag(fields: &Vec<crate::value::Field>, tag: &String) -> (r: Result<Option<usize>, Error>)
    ensures
        match hit(crate::value::fields_view(*fields), tag@, fields@.len() as nat) {
            Hit::Twice => r is Err && r->Err_0.fault() == Fault::Violation,
            Hit::At(i) => r == Ok::<Option<usize>, Error>(Some(i as usize)) && 0 <= i
                < fields@.len(),
            Hit::Nowhere => r == Ok::<Option<usize>, Error>(None),
        },
{
    let ghost fs = crate::value::fields_view(*fields);
    let mut found: Option<usize> = None;
    let mut i: usize = 0;
    while i < fields.len()
        invariant
            i <= fields.len(),
            fs == crate::value::fields_view(*fields),
            match hit(fs, tag@, i as nat) {
                Hit::Twice => false,
                Hit::At(k) => found == Some(k as usize) && 0 <= k < i,
                Hit::Nowhere => found is None,
            },
        decreases fields.len() - i,
    {
        let same = fields[i].name == *tag;
        assert(same == (fs[i as int].name == tag@));
        if same {
            if found.is_some() {
                assert(hit(fs, tag@, (i + 1) as nat) is Twice);
                proof {
                    lemma_twice_stays(fs, tag@, (i + 1) as nat, fields@.len() as nat);
                }
                return Err(Error::custom("duplicate tag found"));
            }
            found = Some(i);
        }
        i = i + 1;
    }
    Ok(found)
}

/// A tag found twice among the first `n` members is found twice among the
/// first `m`, for `m` beyond `n`.
pub proof fn lemma_twice_stays(fields: Seq<crate::value::FieldView>, tag: Seq<char>, n: nat, m: nat)
    requires
        n <= m <= fields.len(),
        hit(fields, tag, n) is Twice,
    ensures
        hit(fields, tag, m) is Twice,
    decreases m - n,
{
    if n < m {
        lemma_twice_stays(fields, tag, n, (m - 1) as nat);
    }
}

/// What a change is made to.
pub ghost struct Target {
    /// The shape of the value that changes.
    pub schema: SchemaView,
    /// The value that changes.
    pub value: ValueView,
    /// The index of the member that changes, or -1 where the whole value
    /// does.
    pub index: int,
}

/// Whether a change of the kind `op` to a value of the shape `s` is made to
/// the whole value: the kind replaces the value, or the value is no record,
/// so that there is no member to look for.
pub open spec fn whole(s: SchemaView, op: UpdateOp) -> bool {
    op == UpdateOp::Replace || !(s is Record)
}

/// Whether `schema` is the shape of a record.
pub fn is_record(schema: &Schema) -> (r: bool)
    ensures
        r == (schema@ is Record),
{
    match schema {
        Schema::Record(_) => true,
        _ => false,
    }
}

/// What a change of the kind `op` under the tag `tag` is made to in the
/// value `v` of the shape `s`: the whole value where the kind replaces it or
/// the value is no record; else the member that has the tag for its name, or
/// nothing where no member has. A change under a tag is refused where the
/// value does not have the shape of its record, and where more than one
/// member has the tag.
pub open spec fn target(s: SchemaView, v: ValueView, op: UpdateOp, tag: Seq<char>) -> Result<
    Option<Target>,
    Fault,
> {
    if whole(s, op) {
        Ok(Some(Target { schema: s, value: v, index: -1 }))
    } else {
        match (s, v) {
            (SchemaView::Record(fields), ValueView::Record(members)) => if members.len()
                != fields.len() {
                Err(Fault::Violation)
            } else {
                match hit(fields, tag, fields.len()) {
                    Hit::Twice => Err(Fault::Violation),
                    Hit::Nowhere => Ok(None),
                    Hit::At(i) => Ok(
                        Some(Target { schema: fields[i].ty, value: members[i], index: i }),
                    ),
                }
            },
            _ => Err(Fault::Violation),
        }
    }
}

/// The value `v` with `after` in the place of what changed.
pub open spec fn put_back(v: ValueView, index: int, after: ValueView) -> ValueView {
    if index < 0 {
        after
    } else {
        ValueView::Record(v->Record_0.update(index, after))
    }
}

/// The change that the server makes: where the kind sends a value anew, the
/// value as it stands; else what the kind, the key and the value stand for.
pub open spec fn intended(op: UpdateOp, now: ValueView, key: Option<ValueView>, val: Option<
    ValueView,
>) -> Option<EditView> {
    if op == UpdateOp::Replace || op == UpdateOp::Update {
        Some(EditView::Assign(now))
    } else {
        planned(op, key, val)
    }
}

/// What the server writes for a change, and its value afterwards. Nothing is
/// written and nothing changes where no member has the tag.
pub open spec fn sent_update(
    g: Graph,
    s: SchemaView,
    v: ValueView,
    op: UpdateOp,
    tag: Seq<char>,
    key: Option<ValueView>,
    val: Option<ValueView>,
) -> Result<(Seq<u8>, ValueView), Fault> {
    match target(s, v, op, tag) {
        Err(f) => Err(f),
        Ok(None) => Ok((Seq::empty(), v)),
        Ok(Some(t)) => match intended(op, t.value, key, val) {
            None => Err(Fault::Violation),
            Some(c) => if !edit_typed(g, t.schema, c) {
                Err(Fault::Violation)
            } else {
                match changed(t.value, c) {
                    Err(f) => Err(f),
                    Ok(after) => Ok((edit_wire(g, t.schema, c), put_back(v, t.index, after))),
                }
            },
        },
    }
}

/// How many of `bytes` a client reads for a change of the kind `op` under
/// the tag `tag`: what the change carries, or nothing where no member has
/// the tag.
pub open spec fn applied_used(
    g: Graph,
    role: Role,
    s: SchemaView,
    v: ValueView,
    op: UpdateOp,
    tag: Seq<char>,
    bytes: Seq<u8>,
) -> int {
    match target(s, v, op, tag) {
        Ok(Some(t)) => match edit_parse(g, role, t.schema, op, bytes) {
            Ok(r) => r.used,
            Err(_) => 0,
        },
        _ => 0,
    }
}

/// What a client that holds the value `v` makes of the bytes of a change of
/// the kind `op` under the tag `tag`: its nodes and its value afterwards.
pub open spec fn applied(
    g: Graph,
    role: Role,
    s: SchemaView,
    v: ValueView,
    op: UpdateOp,
    tag: Seq<char>,
    bytes: Seq<u8>,
) -> Result<(Graph, ValueView), Fault> {
    match target(s, v, op, tag) {
        Err(f) => Err(f),
        Ok(None) => Ok((g, v)),
        Ok(Some(t)) => match edit_parse(g, role, t.schema, op, bytes) {
            Err(f) => Err(f),
            Ok(r) => match changed(t.value, r.edit) {
                Err(f) => Err(f),
                Ok(after) => Ok((r.graph, put_back(v, t.index, after))),
            },
        },
    }
}

/// Writes a change to `target`, a value of the shape `schema`, and makes it.
fn send_change(
    out: &mut Vec<u8>,
    ctx: &NodeContext,
    schema: &Schema,
    target: &mut Value,
    op: UpdateOp,
    key: Option<Value>,
    val: Option<Value>,
) -> (r: Result<(), Error>)
    ensures
        r is Err ==> final(target)@ == old(target)@,
        match intended(op, old(target)@, maybe_view(key), maybe_view(val)) {
            None => r is Err && r->Err_0.fault() == Fault::Violation,
            Some(c) => if !edit_typed(ctx@.nodes, schema@, c) {
                r is Err && r->Err_0.fault() == Fault::Violation
            } else {
                match changed(old(target)@, c) {
                    Err(f) => r is Err && r->Err_0.fault() == f,
                    Ok(after) => r is Ok && final(target)@ == after && final(out)@ == old(out)@
                        + edit_wire(ctx@.nodes, schema@, c),
                }
            },
        },
{
    match op {
        UpdateOp::Replace | UpdateOp::Update => write_value(out, ctx, schema, target),
        _ => match plan(op, key, val) {
            None => Err(Error::custom("a change without what it needs")),
            Some(edit) => {
                let r = write_edit(out, ctx, schema, &edit);
                if r.is_err() {
                    return r;
                }
                apply_edit(target, edit)
            },
        },
    }
}

/// Finds the member of `val`, a record, that a change under the tag `tag`
/// is made to. A value that is no record has no members to look among.
pub fn locate(schema: &Schema, val: &Value, tag: &String) -> (r: Result<Option<usize>, Error>)
    ensures
        !(schema@ is Record) ==> r is Err && r->Err_0.fault() == Fault::Violation,
        schema@ is Record ==> match target(schema@, val@, UpdateOp::Update, tag@) {
            Err(f) => r is Err && r->Err_0.fault() == f,
            Ok(None) => r == Ok::<Option<usize>, Error>(None),
            Ok(Some(t)) => r == Ok::<Option<usize>, Error>(Some(t.index as usize)) && 0 <= t.index
                && *schema is Record && *val is Record && t.index < schema->Record_0.len()
                == val->Record_0.len() && t.schema == schema->Record_0[t.index].ty@ && t.value
                == val->Record_0[t.index]@,
        },
{
    match schema {
        Schema::Record(fields) => match val {
            Value::Record(members) => {
                assert(schema@ == SchemaView::Record(crate::value::fields_view(*fields)));
                assert(val@ == ValueView::Record(values_view(*members)));
                if members.len() != fields.len() {
                    assert(target(schema@, val@, UpdateOp::Update, tag@) == Err::<Option<Target>, Fault>(Fault::Violation));
                    return Err(Error::custom("a record with the wrong number of members"));
                }
                find_tag(fields, tag)
            },
            _ => Err(Error::custom("a tag for what is not a record")),
        },
        _ => Err(Error::custom("a tag for what is not a record")),
    }
}

/// The place of a change under a tag does not depend on the kind of change,
/// as long as the kind does not replace the whole value.
pub proof fn lemma_target_any(s: SchemaView, v: ValueView, op: UpdateOp, tag: Seq<char>)
    requires
        op != UpdateOp::Replace,
    ensures
        target(s, v, op, tag) == target(s, v, UpdateOp::Update, tag),
{
}

/// Writes the change of the kind `op` under the tag `tag` to a member of
/// `val`, a record of the shape `schema`, and makes the change.
fn send_tagged(
    out: &mut Vec<u8>,
    ctx: &NodeContext,
    schema: &Schema,
    val: &mut Value,
    i: usize,
    op: UpdateOp,
    key: Option<Value>,
    item: Option<Value>,
) -> (r: Result<(), Error>)
    requires
        *schema is Record,
        *old(val) is Record,
        i < schema->Record_0.len() == (*old(val))->Record_0.len(),
    ensures
        r is Err ==> final(val)@ == old(val)@,
        match intended(op, (*old(val))->Record_0[i as int]@, maybe_view(key), maybe_view(item)) {
            None => r is Err && r->Err_0.fault() == Fault::Violation,
            Some(c) => if !edit_typed(ctx@.nodes, schema->Record_0[i as int].ty@, c) {
                r is Err && r->Err_0.fault() == Fault::Violation
            } else {
                match changed((*old(val))->Record_0[i as int]@, c) {
                    Err(f) => r is Err && r->Err_0.fault() == f,
                    Ok(after) => r is Ok && final(val)@ == put_back(old(val)@, i as int, after)
                        && final(out)@ == old(out)@ + edit_wire(
                        ctx@.nodes,
                        schema->Record_0[i as int].ty@,
                        c,
                    ),
                }
            },
        },
{
    match schema {
        Schema::Record(fields) => match val {
            Value::Record(members) => {
                let ghost before = values_view(*members);
                let r = send_change(out, ctx, &fields[i].ty, &mut members[i], op, key, item);
                assert(values_view(*members) =~= before.update(i as int, members@[i as int]@));
                if r.is_err() {
                    assert(values_view(*members) =~= before);
                }
                r
            },
            _ => Err(Error::custom("a tag for what is not a record")),
        },
        _ => Err(Error::custom("a tag for what is not a record")),
    }
}

/// Writes the change of the kind `op` under the tag `tag` to `val`, a value
/// of the shape `schema`, and makes the change to `val`. The result says
/// whether there was anything to change.
pub fn send_update(
    out: &mut Vec<u8>,
    ctx: &NodeContext,
    schema: &Schema,
    val: &mut Value,
    op: UpdateOp,
    tag: &String,
    key: Option<Value>,
    item: Option<Value>,
) -> (r: Result<bool, Error>)
    ensures
        r is Err ==> final(val)@ == old(val)@,
        match sent_update(
            ctx@.nodes,
            schema@,
            old(val)@,
            op,
            tag@,
            maybe_view(key),
            maybe_view(item),
        ) {
            Ok((payload, after)) => r is Ok && final(out)@ == old(out)@ + payload && final(val)@
                == after && r->Ok_0 == (target(schema@, old(val)@, op, tag@) matches Ok(Some(_))),
            Err(f) => r is Err && r->Err_0.fault() == f,
        },
{
    if op == UpdateOp::Replace || !is_record(schema) {
        match send_change(out, ctx, schema, val, op, key, item) {
            Ok(()) => Ok(true),
            Err(e) => Err(e),
        }
    } else {
        proof {
            lemma_target_any(schema@, val@, op, tag@);
        }
        match locate(schema, val, tag) {
            Err(e) => Err(e),
            Ok(None) => {
                assert(out@ == old(out)@ + Seq::<u8>::empty());
                Ok(false)
            },
            Ok(Some(i)) => match send_tagged(out, ctx, schema, val, i, op, key, item) {
                Ok(()) => Ok(true),
                Err(e) => Err(e),
            },
        }
    }
}

/// Reads a change of the kind `op` to the `i`-th member of `val`, a record
/// of the shape `schema`, and makes the change.
fn recv_tagged(
    input: &mut Cursor,
    ctx: &mut NodeContext,
    schema: &Schema,
    val: &mut Value,
    i: usize,
    op: UpdateOp,
) -> (r: Result<(), Error>)
    requires
        *schema is Record,
        *old(val) is Record,
        i < schema->Record_0.len() == (*old(val))->Record_0.len(),
    ensures
        final(input).bytes() == old(input).bytes(),
        final(ctx)@.role == old(ctx)@.role,
        final(ctx)@.next == old(ctx)@.next,
        final(ctx)@.outbox == old(ctx)@.outbox,
        r is Err ==> final(val)@ == old(val)@,
        match edit_parse(
            old(ctx)@.nodes,
            old(ctx)@.role,
            schema->Record_0[i as int].ty@,
            op,
            old(input).remaining(),
        ) {
            Err(f) => r is Err && r->Err_0.fault() == f,
            Ok(read) => match changed((*old(val))->Record_0[i as int]@, read.edit) {
                Err(f) => r is Err && r->Err_0.fault() == f,
                Ok(after) => r is Ok && final(ctx)@.nodes == read.graph && final(val)@ == put_back(
                    old(val)@,
                    i as int,
                    after,
                ) && 0 <= read.used <= old(input).remaining().len() && final(input).remaining() == old(
                    input,
                ).remaining().skip(read.used),
            },
        },
{
    match schema {
        Schema::Record(fields) => match val {
            Value::Record(members) => {
                let ghost before = values_view(*members);
                let edit = match read_edit(input, ctx, &fields[i].ty, op) {
                    Ok(edit) => edit,
                    Err(e) => {
                        return Err(e);
                    },
                };
                let r = apply_edit(&mut members[i], edit);
                assert(values_view(*members) =~= before.update(i as int, members@[i as int]@));
                if r.is_err() {
                    assert(values_view(*members) =~= before);
                }
                r
            },
            _ => Err(Error::custom("a tag for what is not a record")),
        },
        _ => Err(Error::custom("a tag for what is not a record")),
    }
}

/// Reads the change of the kind `op` under the tag `tag` and makes it to
/// `val`, a value of the shape `schema`. The result says whether there was
/// anything to change.
pub fn recv_update(
    input: &mut Cursor,
    ctx: &mut NodeContext,
    schema: &Schema,
    val: &mut Value,
    op: UpdateOp,
    tag: &String,
) -> (r: Result<bool, Error>)
    ensures
        final(input).bytes() == old(input).bytes(),
        final(ctx)@.role == old(ctx)@.role,
        final(ctx)@.next == old(ctx)@.next,
        final(ctx)@.outbox == old(ctx)@.outbox,
        r is Err ==> final(val)@ == old(val)@,
        match applied(
            old(ctx)@.nodes,
            old(ctx)@.role,
            schema@,
            old(val)@,
            op,
            tag@,
            old(input).remaining(),
        ) {
            Ok((graph, after)) => r is Ok && final(ctx)@.nodes == graph && final(val)@ == after
                && r->Ok_0 == (target(schema@, old(val)@, op, tag@) matches Ok(Some(_))) && 0
                <= applied_used(
                old(ctx)@.nodes,
                old(ctx)@.role,
                schema@,
                old(val)@,
                op,
                tag@,
                old(input).remaining(),
            ) <= old(input).remaining().len() && final(input).remaining() == old(
                input,
            ).remaining().skip(
                applied_used(
                    old(ctx)@.nodes,
                    old(ctx)@.role,
                    schema@,
                    old(val)@,
                    op,
                    tag@,
                    old(input).remaining(),
                ),
            ),
            Err(f) => r is Err && r->Err_0.fault() == f,
        },
{
    if op == UpdateOp::Replace || !is_record(schema) {
        let edit = match read_edit(input, ctx, schema, op) {
            Ok(edit) => edit,
            Err(e) => {
                return Err(e);
            },
        };
        match apply_edit(val, edit) {
            Ok(()) => Ok(true),
            Err(e) => Err(e),
        }
    } else {
        proof {
            lemma_target_any(schema@, val@, op, tag@);
        }
        match locate(schema, val, tag) {
            Err(e) => Err(e),
            Ok(None) => {
                assert(input.remaining().skip(0) =~= input.remaining());
                Ok(false)
            },
            Ok(Some(i)) => match recv_tagged(input, ctx, schema, val, i, op) {
                Ok(()) => Ok(true),
                Err(e) => Err(e),
            },
        }
    }
}

/// The bytes that come before what a change carries: the kind of change and
/// the tag.
pub open spec fn update_header(op: UpdateOp, tag: Seq<char>) -> Seq<u8> {
    seq![op.spec_code()] + crate::visitor::serializer::text_wire(tag)
}

/// What a client that holds the value `v` makes of a whole update: the kind
/// of change, the tag, and what the change carries. A kind that is not
/// known is refused.
pub open spec fn apply_message(g: Graph, role: Role, s: SchemaView, v: ValueView, bytes: Seq<u8>) -> Result<
    (Graph, ValueView),
    Fault,
> {
    if bytes.len() < 1 {
        Err(Fault::Truncated)
    } else {
        match UpdateOp::spec_from_code(bytes[0]) {
            None => Err(Fault::Violation),
            Some(op) => match <String as FromStream>::parse(bytes.skip(1)) {
                Err(m) => Err(crate::fault_of(m)),
                Ok((tag, used)) => applied(g, role, s, v, op, tag, bytes.skip(1 + used)),
            },
        }
    }
}

/// Whether the update that `bytes` hold finds something to change in the
/// value `v`: the whole value, or the member with the update's tag.
pub open spec fn message_hit(s: SchemaView, v: ValueView, bytes: Seq<u8>) -> bool {
    bytes.len() >= 1 && match (
        UpdateOp::spec_from_code(bytes[0]),
        <String as FromStream>::parse(bytes.skip(1)),
    ) {
        (Some(op), Ok((tag, _))) => target(s, v, op, tag) matches Ok(Some(_)),
        _ => false,
    }
}

/// What a client makes of a whole update for the value `v` of the node
/// `parent`: its nodes and its value afterwards. Where the update finds
/// something to change, the node is then the parent of every node that the
/// value refers to.
pub open spec fn received(
    g: Graph,
    role: Role,
    s: SchemaView,
    v: ValueView,
    parent: u32,
    bytes: Seq<u8>,
) -> Result<(Graph, ValueView), Fault> {
    match apply_message(g, role, s, v, bytes) {
        Err(f) => Err(f),
        Ok((graph, after)) => Ok(
            (
                if message_hit(s, v, bytes) {
                    taken_in(graph, current(parent), s, after)
                } else {
                    graph
                },
                after,
            ),
        ),
    }
}

/// How many of `bytes` a client reads for a whole update: the kind of
/// change, the tag, and what the change carries.
pub open spec fn message_used(g: Graph, role: Role, s: SchemaView, v: ValueView, bytes: Seq<u8>) -> int {
    if bytes.len() < 1 {
        0
    } else {
        match (UpdateOp::spec_from_code(bytes[0]), <String as FromStream>::parse(bytes.skip(1))) {
            (Some(op), Ok((tag, used))) => 1 + used + applied_used(
                g,
                role,
                s,
                v,
                op,
                tag,
                bytes.skip(1 + used),
            ),
            _ => 0,
        }
    }
}

/// Writes the kind of change and the tag, or refuses a tag that is too long
/// for its count.
pub fn write_header(out: &mut Vec<u8>, op: UpdateOp, tag: &String) -> (r: Result<(), Error>)
    ensures
        vstd::utf8::encode_utf8(tag@).len() <= u32::MAX ==> r is Ok && final(out)@ == old(out)@
            + update_header(op, tag@),
        vstd::utf8::encode_utf8(tag@).len() > u32::MAX ==> r is Err && r->Err_0.fault()
            == Fault::Violation,
{
    if tag.as_str().as_bytes().len() > u32::MAX as usize {
        return Err(Error::custom("a tag too long for its count"));
    }
    out.push(op.code());
    let _ = tag.encode(out);
    assert(out@ == old(out)@ + (seq![op.spec_code()] + crate::visitor::serializer::text_wire(
        tag@,
    )));
    Ok(())
}

/// A value that can take an update that has arrived.
pub trait CallUpdate: Sized {
    /// Reads an update from `msg` and makes the change to the value, which
    /// has the shape `schema` and belongs to the node `parent`: that node is
    /// then the parent of every node that the value refers to.
    fn call_upd(&mut self, ctx: &mut NodeContext, schema: &Schema, parent: u32, msg: &mut Cursor) -> (r:
        Result<(), Error>);
}

impl CallUpdate for Value {
    fn call_upd(&mut self, ctx: &mut NodeContext, schema: &Schema, parent: u32, msg: &mut Cursor) -> (r:
        Result<(), Error>)
        ensures
            final(msg).bytes() == old(msg).bytes(),
            final(ctx)@.role == old(ctx)@.role,
            final(ctx)@.next == old(ctx)@.next,
            final(ctx)@.outbox == old(ctx)@.outbox,
            r is Err ==> final(self)@ == old(self)@,
            match received(
                old(ctx)@.nodes,
                old(ctx)@.role,
                schema@,
                old(self)@,
                parent,
                old(msg).remaining(),
            ) {
                Ok((graph, after)) => r is Ok && final(ctx)@.nodes == graph && final(self)@ == after
                    && final(msg).remaining() == old(msg).remaining().skip(
                    message_used(
                        old(ctx)@.nodes,
                        old(ctx)@.role,
                        schema@,
                        old(self)@,
                        old(msg).remaining(),
                    ),
                ),
                Err(f) => r is Err && r->Err_0.fault() == f,
            },
    {
        let ghost all = msg.remaining();
        let code = match msg.read_byte() {
            Ok(b) => b,
            Err(e) => {
                return Err(Error::of(e));
            },
        };
        let op = match UpdateOp::from_code(code) {
            Some(op) => op,
            None => {
                return Err(Error::custom("an unknown kind of change"));
            },
        };
        proof {
            <String as FromStream>::lemma_parse_bounds(all.skip(1));
        }
        let ghost head = <String as FromStream>::parse(all.skip(1));
        let tag = match String::decode(msg) {
            Ok(t) => t,
            Err(e) => {
                return Err(Error::of(e));
            },
        };
        assert(all.skip(1).skip(head->Ok_0.1) == all.skip(1 + head->Ok_0.1));
        let ghost used = applied_used(
            old(ctx)@.nodes,
            old(ctx)@.role,
            schema@,
            old(self)@,
            op,
            tag@,
            all.skip(1 + head->Ok_0.1),
        );
        match recv_update(msg, ctx, schema, self, op, &tag) {
            Ok(found) => {
                assert(all.skip(1 + head->Ok_0.1).skip(used) =~= all.skip(1 + head->Ok_0.1 + used));
                if found {
                    ctx.take_in(current_of(parent), schema, self);
                }
                Ok(())
            },
            Err(e) => Err(e),
        }
    }
}

/// A visitor that carries one change: around a serializer it writes the
/// change and makes it, around a deserializer it reads the change and makes
/// it.
pub struct Updater<V> {
    /// The visitor that writes or reads.
    pub ser: V,
    /// The name of the member that changes.
    pub tag: String,
    /// The kind of change.
    pub op: UpdateOp,
    /// How many members with the tag have been seen.
    pub found: u32,
    /// How deep inside the member with the tag the visitor is.
    pub nest: u32,
    /// The key of the change, or the index: an unsigned 32-bit value.
    pub key: Option<Value>,
    /// The value of the change.
    pub val: Option<Value>,
    /// The id of the node whose value changes, or 0 for none: the node
    /// becomes a parent of every node that the changed value refers to.
    pub current_node: u32,
    /// The context, while one is attached: `send` and `apply` work among
    /// its nodes.
    pub context: Option<NodeContext>,
}

/// The current node of an updater: the node with the id `n`, or none where
/// the id is 0.
pub open spec fn current(n: u32) -> Option<u32> {
    if n > 0 {
        Some(n)
    } else {
        None
    }
}

/// The current node of an updater.
pub fn current_of(n: u32) -> (r: Option<u32>)
    ensures
        r == current(n),
{
    if n > 0 {
        Some(n)
    } else {
        None
    }
}

/// Whether `u` is an updater that has not started yet.
pub open spec fn starts<V>(
    u: Updater<V>,
    node: u32,
    ser: V,
    tag: String,
    op: UpdateOp,
    key: Option<Value>,
    val: Option<Value>,
) -> bool {
    &&& u.ser == ser
    &&& u.tag == tag
    &&& u.op == op
    &&& u.found == 0
    &&& u.nest == 0
    &&& u.key == key
    &&& u.val == val
    &&& u.current_node == node
    &&& u.context is None
}

impl<V> Updater<V> {
    /// An updater that sends the whole value anew.
    pub fn new_replace(node: u32, ser: V) -> (u: Updater<V>)
        ensures
            u.ser == ser,
            u.tag@ == Seq::<char>::empty(),
            u.op == UpdateOp::Replace,
            u.found == 0,
            u.nest == 0,
            u.key is None,
            u.val is None,
            u.current_node == node,
            u.context is None,
    {
        Updater {
            ser,
            tag: String::new(),
            op: UpdateOp::Replace,
            found: 0,
            nest: 0,
            key: None,
            val: None,
            current_node: node,
            context: None,
        }
    }

    /// An updater that sends the member `tag` anew.
    pub fn new_update(node: u32, ser: V, tag: String) -> (u: Updater<V>)
        ensures
            starts(u, node, ser, tag, UpdateOp::Update, None, None),
    {
        Updater {
            ser,
            tag,
            op: UpdateOp::Update,
            found: 0,
            nest: 0,
            key: None,
            val: None,
            current_node: node,
            context: None,
        }
    }

    /// An updater that adds `val` at the end of the list `tag`.
    pub fn new_vec_push(node: u32, ser: V, tag: String, val: Value) -> (u: Updater<V>)
        ensures
            starts(u, node, ser, tag, UpdateOp::VecPush, None, Some(val)),
    {
        Updater {
            ser,
            tag,
            op: UpdateOp::VecPush,
            found: 0,
            nest: 0,
            key: None,
            val: Some(val),
            current_node: node,
            context: None,
        }
    }

    /// An updater that puts `val` into the list `tag` at `index`.
    pub fn new_vec_insert(node: u32, ser: V, tag: String, index: u32, val: Value) -> (u: Updater<V>)
        ensures
            starts(
                u,
                node,
                ser,
                tag,
                UpdateOp::VecInsert,
                Some(Value::Scalar(Scalar::U32(index))),
                Some(val),
            ),
    {
        Updater {
            ser,
            tag,
            op: UpdateOp::VecInsert,
            found: 0,
            nest: 0,
            key: Some(Value::Scalar(Scalar::U32(index))),
            val: Some(val),
            current_node: node,
            context: None,
        }
    }

    /// An updater that takes the item at `index` out of the list `tag`.
    pub fn new_vec_remove(node: u32, ser: V, tag: String, index: u32) -> (u: Updater<V>)
        ensures
            starts(
                u,
                node,
                ser,
                tag,
                UpdateOp::VecRemove,
                Some(Value::Scalar(Scalar::U32(index))),
                None,
            ),
    {
        Updater {
            ser,
            tag,
            op: UpdateOp::VecRemove,
            found: 0,
            nest: 0,
            key: Some(Value::Scalar(Scalar::U32(index))),
            val: None,
            current_node: node,
            context: None,
        }
    }

    /// An updater that empties the list `tag`.
    pub fn new_vec_clear(node: u32, ser: V, tag: String) -> (u: Updater<V>)
        ensures
            starts(u, node, ser, tag, UpdateOp::VecClear, None, None),
    {
        Updater {
            ser,
            tag,
            op: UpdateOp::VecClear,
            found: 0,
            nest: 0,
            key: None,
            val: None,
            current_node: node,
            context: None,
        }
    }

    /// An updater that gives `key` the value `val` in the mapping `tag`.
    pub fn new_map_insert(node: u32, ser: V, tag: String, key: Value, val: Value) -> (u: Updater<V>)
        ensures
            starts(u, node, ser, tag, UpdateOp::MapInsert, Some(key), Some(val)),
    {
        Updater {
            ser,
            tag,
            op: UpdateOp::MapInsert,
            found: 0,
            nest: 0,
            key: Some(key),
            val: Some(val),
            current_node: node,
            context: None,
        }
    }

    /// An updater that takes the key `index` out of the mapping `tag`.
    pub fn new_map_remove(node: u32, ser: V, tag: String, index: Value) -> (u: Updater<V>)
        ensures
            starts(u, node, ser, tag, UpdateOp::MapRemove, Some(index), None),
    {
        Updater {
            ser,
            tag,
            op: UpdateOp::MapRemove,
            found: 0,
            nest: 0,
            key: Some(index),
            val: None,
            current_node: node,
            context: None,
        }
    }

    /// An updater that empties the mapping `tag`.
    pub fn new_map_clear(node: u32, ser: V, tag: String) -> (u: Updater<V>)
        ensures
            starts(u, node, ser, tag, UpdateOp::MapClear, None, None),
    {
        Updater {
            ser,
            tag,
            op: UpdateOp::MapClear,
            found: 0,
            nest: 0,
            key: None,
            val: None,
            current_node: node,
            context: None,
        }
    }

    /// The visitor that wrote or read.
    pub fn unwrap(self) -> (ser: V)
        ensures
            ser == self.ser,
    {
        self.ser
    }

    /// Attaches the context that the nodes which arrive are stored in.
    pub fn attach_context(&mut self, context: NodeContext)
        ensures
            *final(self) == (Updater { context: Some(context), ..*old(self) }),
    {
        self.context = Some(context);
    }

    /// Hands back the context that was attached.
    pub fn context(&mut self) -> (context: NodeContext)
        requires
            old(self).context is Some,
        ensures
            Some(context) == old(self).context,
            *final(self) == (Updater { context: None, ..*old(self) }),
    {
        self.context.take().unwrap()
    }
}

impl Updater<Serializer> {
    /// Writes the change and makes it to `val`, a value of the shape
    /// `schema`, among the nodes of the context that is attached.
    pub fn send(&mut self, schema: &Schema, val: &mut Value) -> (r: Result<(), Error>)
        requires
            old(self).context is Some,
        ensures
            final(self).context is Some,
            final(self).current_node == old(self).current_node,
            final(self).tag == old(self).tag,
            final(self).op == old(self).op,
            r is Err ==> final(val)@ == old(val)@,
            final(self).context->Some_0@ == (ContextView {
                nodes: if r is Ok && target(schema@, old(val)@, old(self).op, old(self).tag@)
                    matches Ok(Some(_)) {
                    taken_in(
                        old(self).context->Some_0@.nodes,
                        current(old(self).current_node),
                        schema@,
                        final(val)@,
                    )
                } else {
                    old(self).context->Some_0@.nodes
                },
                ..old(self).context->Some_0@
            }),
            match sent_update(
                old(self).context->Some_0@.nodes,
                schema@,
                old(val)@,
                old(self).op,
                old(self).tag@,
                maybe_view(old(self).key),
                maybe_view(old(self).val),
            ) {
                Ok((payload, after)) => r is Ok && final(self).ser.writer@ == old(self).ser.writer@
                    + payload && final(val)@ == after,
                Err(f) => r is Err && r->Err_0.fault() == f,
            },
    {
        let mut ctx = self.context.take().unwrap();
        let r = val.reflect(&mut ctx, schema, self);
        self.context = Some(ctx);
        r
    }
}

impl Updater<Deserializer> {
    /// Reads the change and makes it to `val`, a value of the shape
    /// `schema`, among the nodes of the context that is attached.
    pub fn apply(&mut self, schema: &Schema, val: &mut Value) -> (r: Result<(), Error>)
        requires
            old(self).context is Some,
        ensures
            final(self).context is Some,
            final(self).current_node == old(self).current_node,
            final(self).tag == old(self).tag,
            final(self).op == old(self).op,
            final(self).context->Some_0@.role == old(self).context->Some_0@.role,
            final(self).context->Some_0@.next == old(self).context->Some_0@.next,
            final(self).context->Some_0@.outbox == old(self).context->Some_0@.outbox,
            r is Err ==> final(val)@ == old(val)@,
            match applied(
                old(self).context->Some_0@.nodes,
                old(self).context->Some_0@.role,
                schema@,
                old(val)@,
                old(self).op,
                old(self).tag@,
                old(self).ser.reader.remaining(),
            ) {
                Ok((graph, after)) => r is Ok && final(self).context->Some_0@.nodes == (if target(
                    schema@,
                    old(val)@,
                    old(self).op,
                    old(self).tag@,
                ) matches Ok(Some(_)) {
                    taken_in(graph, current(old(self).current_node), schema@, after)
                } else {
                    graph
                }) && final(val)@ == after && final(self).ser.reader.remaining() == old(self).ser.reader.remaining().skip(
                    applied_used(
                        old(self).context->Some_0@.nodes,
                        old(self).context->Some_0@.role,
                        schema@,
                        old(val)@,
                        old(self).op,
                        old(self).tag@,
                        old(self).ser.reader.remaining(),
                    ),
                ),
                Err(f) => r is Err && r->Err_0.fault() == f,
            },
    {
        let mut ctx = self.context.take().unwrap();
        let r = val.reflect(&mut ctx, schema, self);
        self.context = Some(ctx);
        r
    }
}

impl Visitor for Updater<Serializer> {
    /// Writes the member where the whole value is sent anew or the visitor
    /// is inside the member that changes; writes the change and makes it
    /// where the member has the tag; passes the member over otherwise. A tag
    /// that is met a second time is refused.
    fn visit(&mut self, ctx: &mut NodeContext, name: &str, schema: &Schema, val: &mut Value) -> (r:
        Result<(), Error>)
        ensures
            final(ctx)@ == (ContextView {
                nodes: if r is Ok && (old(self).op == UpdateOp::Replace || old(self).nest > 0
                    || name@ == old(self).tag@) {
                    taken_in(
                        old(ctx)@.nodes,
                        current(old(self).current_node),
                        schema@,
                        final(val)@,
                    )
                } else {
                    old(ctx)@.nodes
                },
                ..old(ctx)@
            }),
            final(self).tag == old(self).tag,
            final(self).op == old(self).op,
            final(self).nest == old(self).nest,
            final(self).current_node == old(self).current_node,
            final(self).context == old(self).context,
            r is Err ==> final(val)@ == old(val)@,
            (old(self).op == UpdateOp::Replace || old(self).nest > 0) ==> final(self).found == old(self).found && final(val)@ == old(val)@ && (typed(old(ctx)@.nodes, schema@, old(val)@)
                ==> r is Ok && final(self).ser.writer@ == old(self).ser.writer@ + wire(
                old(ctx)@.nodes,
                schema@,
                old(val)@,
            )) && (!typed(old(ctx)@.nodes, schema@, old(val)@) ==> r is Err),
            !(old(self).op == UpdateOp::Replace || old(self).nest > 0) && name@ != old(self).tag@
                ==> r is Ok && final(self).found == old(self).found && final(self).ser == old(self).ser && final(self).key == old(self).key && final(self).val == old(self).val && final(val)@ == old(val)@,
            !(old(self).op == UpdateOp::Replace || old(self).nest > 0) && name@ == old(self).tag@
                && old(self).found > 0 ==> r is Err && r->Err_0.fault() == Fault::Violation,
            !(old(self).op == UpdateOp::Replace || old(self).nest > 0) && name@ == old(self).tag@
                && old(self).found == 0 ==> final(self).found == 1 && match intended(
                old(self).op,
                old(val)@,
                maybe_view(old(self).key),
                maybe_view(old(self).val),
            ) {
                None => r is Err && r->Err_0.fault() == Fault::Violation,
                Some(c) => if !edit_typed(old(ctx)@.nodes, schema@, c) {
                    r is Err && r->Err_0.fault() == Fault::Violation
                } else {
                    match changed(old(val)@, c) {
                        Err(f) => r is Err && r->Err_0.fault() == f,
                        Ok(after) => r is Ok && final(val)@ == after && final(self).ser.writer@
                            == old(self).ser.writer@ + edit_wire(old(ctx)@.nodes, schema@, c),
                    }
                },
            },
    {
        let r = if self.op == UpdateOp::Replace || self.nest > 0 {
            write_value(&mut self.ser.writer, ctx, schema, val)
        } else if name.to_owned() == self.tag {
            if self.found > 0 {
                Err(Error::custom("duplicate tag found"))
            } else {
                self.found = 1;
                let key = self.key.take();
                let item = self.val.take();
                send_change(&mut self.ser.writer, ctx, schema, val, self.op, key, item)
            }
        } else {
            return Ok(());
        };
        if r.is_ok() {
            ctx.take_in(current_of(self.current_node), schema, val);
        }
        r
    }
}

impl Reflect<Updater<Serializer>> for Value {
    /// Writes the change that `visitor` carries and makes it to this value.
    /// The key and the value of the change are used up.
    fn reflect(
        &mut self,
        ctx: &mut NodeContext,
        schema: &Schema,
        visitor: &mut Updater<Serializer>,
    ) -> (r: Result<(), Error>)
        ensures
            final(ctx)@ == (ContextView {
                nodes: if r is Ok && target(schema@, old(self)@, old(visitor).op, old(visitor).tag@)
                    matches Ok(Some(_)) {
                    taken_in(
                        old(ctx)@.nodes,
                        current(old(visitor).current_node),
                        schema@,
                        final(self)@,
                    )
                } else {
                    old(ctx)@.nodes
                },
                ..old(ctx)@
            }),
            final(visitor).current_node == old(visitor).current_node,
            final(visitor).nest == old(visitor).nest,
            final(visitor).context == old(visitor).context,
            final(visitor).key is None,
            final(visitor).val is None,
            final(visitor).found == (if r is Ok && target(
                schema@,
                old(self)@,
                old(visitor).op,
                old(visitor).tag@,
            ) matches Ok(Some(_)) {
                1u32
            } else {
                old(visitor).found
            }),
            final(visitor).tag == old(visitor).tag,
            final(visitor).op == old(visitor).op,
            r is Err ==> final(self)@ == old(self)@,
            match sent_update(
                old(ctx)@.nodes,
                schema@,
                old(self)@,
                old(visitor).op,
                old(visitor).tag@,
                maybe_view(old(visitor).key),
                maybe_view(old(visitor).val),
            ) {
                Ok((payload, after)) => r is Ok && final(visitor).ser.writer@ == old(visitor).ser.writer@ + payload && final(self)@ == after,
                Err(f) => r is Err && r->Err_0.fault() == f,
            },
    {
        let key = visitor.key.take();
        let item = visitor.val.take();
        match send_update(
            &mut visitor.ser.writer,
            ctx,
            schema,
            self,
            visitor.op,
            &visitor.tag,
            key,
            item,
        ) {
            Ok(found) => {
                if found {
                    visitor.found = 1;
                    ctx.take_in(current_of(visitor.current_node), schema, self);
                }
                Ok(())
            },
            Err(e) => Err(e),
        }
    }
}

impl Visitor for Updater<Deserializer> {
    /// Reads the member where the whole value is sent anew or the visitor
    /// is inside the member that changes; reads the change and makes it
    /// where the member has the tag; passes the member over otherwise. A tag
    /// that is met a second time is refused.
    fn visit(&mut self, ctx: &mut NodeContext, name: &str, schema: &Schema, val: &mut Value) -> (r:
        Result<(), Error>)
        ensures
            final(self).tag == old(self).tag,
            final(self).op == old(self).op,
            final(self).nest == old(self).nest,
            final(self).current_node == old(self).current_node,
            final(self).context == old(self).context,
            final(ctx)@.role == old(ctx)@.role,
            final(ctx)@.next == old(ctx)@.next,
            final(ctx)@.outbox == old(ctx)@.outbox,
            r is Err ==> final(val)@ == old(val)@,
            !(old(self).op == UpdateOp::Replace || old(self).nest > 0) && name@ != old(self).tag@
                ==> r is Ok && final(self).found == old(self).found && final(self).ser == old(self).ser && final(self).key == old(self).key && final(self).val == old(self).val && final(val)@ == old(val)@ && final(ctx)@ == old(ctx)@,
            !(old(self).op == UpdateOp::Replace || old(self).nest > 0) && name@ == old(self).tag@
                && old(self).found > 0 ==> r is Err && r->Err_0.fault() == Fault::Violation,
            (old(self).op == UpdateOp::Replace || old(self).nest > 0 || (name@ == old(self).tag@
                && old(self).found == 0)) ==> match edit_parse(
                old(ctx)@.nodes,
                old(ctx)@.role,
                schema@,
                if old(self).nest > 0 {
                    UpdateOp::Update
                } else {
                    old(self).op
                },
                old(self).ser.reader.remaining(),
            ) {
                Err(f) => r is Err && r->Err_0.fault() == f,
                Ok(read) => match changed(old(val)@, read.edit) {
                    Err(f) => r is Err && r->Err_0.fault() == f,
                    Ok(after) => r is Ok && final(ctx)@.nodes == taken_in(
                        read.graph,
                        current(old(self).current_node),
                        schema@,
                        after,
                    ) && final(val)@ == after
                        && final(self).ser.reader.remaining() == old(self).ser.reader.remaining().skip(read.used),
                },
            },
    {
        let r = if self.op == UpdateOp::Replace || self.nest > 0 {
            let op = if self.nest > 0 {
                UpdateOp::Update
            } else {
                self.op
            };
            match read_edit(&mut self.ser.reader, ctx, schema, op) {
                Ok(edit) => apply_edit(val, edit),
                Err(e) => Err(e),
            }
        } else if name.to_owned() == self.tag {
            if self.found > 0 {
                Err(Error::custom("duplicate tag found"))
            } else {
                self.found = 1;
                match read_edit(&mut self.ser.reader, ctx, schema, self.op) {
                    Ok(edit) => apply_edit(val, edit),
                    Err(e) => Err(e),
                }
            }
        } else {
            return Ok(());
        };
        if r.is_ok() {
            ctx.take_in(current_of(self.current_node), schema, val);
        }
        r
    }
}

impl Reflect<Updater<Deserializer>> for Value {
    /// Reads the change that `visitor` is to read and makes it to this
    /// value.
    fn reflect(
        &mut self,
        ctx: &mut NodeContext,
        schema: &Schema,
        visitor: &mut Updater<Deserializer>,
    ) -> (r: Result<(), Error>)
        ensures
            final(visitor).tag == old(visitor).tag,
            final(visitor).op == old(visitor).op,
            final(visitor).current_node == old(visitor).current_node,
            final(visitor).nest == old(visitor).nest,
            final(visitor).context == old(visitor).context,
            final(visitor).key == old(visitor).key,
            final(visitor).val == old(visitor).val,
            final(visitor).found == (if r is Ok && target(
                schema@,
                old(self)@,
                old(visitor).op,
                old(visitor).tag@,
            ) matches Ok(Some(_)) {
                1u32
            } else {
                old(visitor).found
            }),
            final(ctx)@.role == old(ctx)@.role,
            final(ctx)@.next == old(ctx)@.next,
            final(ctx)@.outbox == old(ctx)@.outbox,
            r is Err ==> final(self)@ == old(self)@,
            match applied(
                old(ctx)@.nodes,
                old(ctx)@.role,
                schema@,
                old(self)@,
                old(visitor).op,
                old(visitor).tag@,
                old(visitor).ser.reader.remaining(),
            ) {
                Ok((graph, after)) => r is Ok && final(ctx)@.nodes == (if target(
                    schema@,
                    old(self)@,
                    old(visitor).op,
                    old(visitor).tag@,
                ) matches Ok(Some(_)) {
                    taken_in(graph, current(old(visitor).current_node), schema@, after)
                } else {
                    graph
                }) && final(self)@ == after && final(visitor).ser.reader.remaining() == old(
                    visitor,
                ).ser.reader.remaining().skip(
                    applied_used(
                        old(ctx)@.nodes,
                        old(ctx)@.role,
                        schema@,
                        old(self)@,
                        old(visitor).op,
                        old(visitor).tag@,
                        old(visitor).ser.reader.remaining(),
                    ),
                ),
                Err(f) => r is Err && r->Err_0.fault() == f,
            },
    {
        match recv_update(&mut visitor.ser.reader, ctx, schema, self, visitor.op, &visitor.tag) {
            Ok(found) => {
                if found {
                    visitor.found = 1;
                    ctx.take_in(current_of(visitor.current_node), schema, self);
                }
                Ok(())
            },
            Err(e) => Err(e),
        }
    }
}

} // verus!
