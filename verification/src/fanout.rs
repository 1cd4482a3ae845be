//! Why the right connections hear of a node.
//!
//! Each node keeps the set of connections that hear of it. The set is meant
//! to be the connection whose root the node is, together with what the
//! node's parents pass on. The laws here say when a refreshing walk makes
//! that so, and that the walks which the library makes keep it so.

use crate::links::{due, inherited, lent, refresh_one, walked, walked_entries, walked_items};
use crate::links::{root_set, walked_row, with_parent, without_parent, Pass};
use crate::node::{below, from_node, Graph, NodeView};
use crate::replication::{reach, reach_entries, reach_items, reach_row};
use crate::value::{FieldView, SchemaView, ValueView};
use crate::visitor::serializer::{lemma_typed_dict, lemma_typed_list, lemma_typed_row};
use crate::visitor::serializer::{typed, typed_row};
use vstd::prelude::*;

verus! {

/// Whether two graphs hold the same nodes with the same shapes and values,
/// whatever else they say of them.
pub open spec fn same_values(g: Graph, h: Graph) -> bool {
    &&& forall|id: u32| #[trigger] g.contains_key(id) <==> h.contains_key(id)
    &&& forall|id: u32|
        #[trigger] g.contains_key(id) ==> g[id].schema == h[id].schema && g[id].value
            == h[id].value
}

/// A row that has its shapes among some nodes has them among the same nodes
/// with other bookkeeping.
pub proof fn lemma_typed_row_same(g: Graph, h: Graph, fields: Seq<FieldView>, members: Seq<ValueView>)
    requires
        same_values(g, h),
        typed_row(g, fields, members),
    ensures
        typed_row(h, fields, members),
    decreases fields, 0nat, 0nat,
{
    lemma_typed_row(g, fields, members);
    lemma_typed_row(h, fields, members);
    assert forall|i: int| 0 <= i < fields.len() implies typed(
        h,
        (#[trigger] fields[i]).ty,
        members[i],
    ) by {
        assert(typed(g, fields[i].ty, members[i]));
        lemma_typed_same(g, h, fields[i].ty, members[i]);
    }
}

/// A value that has its shape among some nodes has it among the same nodes
/// with other bookkeeping.
pub proof fn lemma_typed_same(g: Graph, h: Graph, s: SchemaView, v: ValueView)
    requires
        same_values(g, h),
        typed(g, s, v),
    ensures
        typed(h, s, v),
    decreases s, 1nat, 0nat,
{
    match s {
        SchemaView::List(e) => {
            let items = v->List_0;
            lemma_typed_list(g, *e, items);
            lemma_typed_list(h, *e, items);
            assert forall|i: int| 0 <= i < items.len() implies typed(h, *e, #[trigger] items[i]) by {
                assert(typed(g, *e, items[i]));
                lemma_typed_same(g, h, *e, items[i]);
            }
        },
        SchemaView::Dict(k, w) => {
            let entries = v->Dict_0;
            lemma_typed_dict(g, *k, *w, entries);
            lemma_typed_dict(h, *k, *w, entries);
            assert forall|i: int| 0 <= i < entries.len() implies typed(
                h,
                *k,
                (#[trigger] entries[i]).0,
            ) && typed(h, *w, entries[i].1) by {
                assert(typed(g, *k, entries[i].0) && typed(g, *w, entries[i].1));
                lemma_typed_same(g, h, *k, entries[i].0);
                lemma_typed_same(g, h, *w, entries[i].1);
            }
        },
        SchemaView::Maybe(e) => {
            match v->Maybe_0 {
                Some(inner) => {
                    lemma_typed_same(g, h, *e, *inner);
                },
                None => {},
            }
        },
        SchemaView::Record(fields) => {
            lemma_typed_row_same(g, h, fields, v->Record_0);
        },
        SchemaView::Choice(variants) => {
            lemma_typed_row_same(g, h, variants[v->Choice_0 as int], v->Choice_1);
        },
        SchemaView::Node(inner) => {
            let id = v->Node_0;
            assert(g.contains_key(id));
            lemma_typed_same(g, h, *inner, g[id].value);
        },
        _ => {},
    }
}

/// What the first `n` items reach does not depend on the bookkeeping.
pub proof fn lemma_reach_items_same(
    g: Graph,
    h: Graph,
    e: SchemaView,
    items: Seq<ValueView>,
    n: nat,
)
    requires
        same_values(g, h),
    ensures
        reach_items(g, e, items, n) == reach_items(h, e, items, n),
    decreases e, 3nat, n,
{
    if n > 0 {
        lemma_reach_items_same(g, h, e, items, (n - 1) as nat);
        lemma_reach_same(g, h, e, items[n - 1]);
    }
}

/// What the first `n` entries reach does not depend on the bookkeeping.
pub proof fn lemma_reach_entries_same(
    g: Graph,
    h: Graph,
    s: SchemaView,
    entries: Seq<(ValueView, ValueView)>,
    n: nat,
)
    requires
        same_values(g, h),
    ensures
        reach_entries(g, s, entries, n) == reach_entries(h, s, entries, n),
    decreases s, 0nat, n,
{
    match s {
        SchemaView::Dict(k, w) => {
            if n > 0 {
                lemma_reach_entries_same(g, h, s, entries, (n - 1) as nat);
                lemma_reach_same(g, h, *k, entries[n - 1].0);
                lemma_reach_same(g, h, *w, entries[n - 1].1);
            }
        },
        _ => {},
    }
}

/// What the first `n` members reach does not depend on the bookkeeping.
pub proof fn lemma_reach_row_same(
    g: Graph,
    h: Graph,
    fields: Seq<FieldView>,
    members: Seq<ValueView>,
    n: nat,
)
    requires
        same_values(g, h),
    ensures
        reach_row(g, fields, members, n) == reach_row(h, fields, members, n),
    decreases fields, 0nat, n,
{
    if n > 0 && n <= fields.len() {
        lemma_reach_row_same(g, h, fields, members, (n - 1) as nat);
        lemma_reach_same(g, h, fields[n - 1].ty, members[n - 1]);
    }
}

/// What a value reaches does not depend on the bookkeeping.
pub proof fn lemma_reach_same(g: Graph, h: Graph, s: SchemaView, v: ValueView)
    requires
        same_values(g, h),
    ensures
        reach(g, s, v) == reach(h, s, v),
    decreases s, 1nat, 0nat,
{
    match (s, v) {
        (SchemaView::List(e), ValueView::List(items)) => {
            lemma_reach_items_same(g, h, *e, items, items.len());
        },
        (SchemaView::Dict(_, _), ValueView::Dict(entries)) => {
            lemma_reach_entries_same(g, h, s, entries, entries.len());
        },
        (SchemaView::Maybe(e), ValueView::Maybe(Some(inner))) => {
            lemma_reach_same(g, h, *e, *inner);
        },
        (SchemaView::Record(fields), ValueView::Record(members)) => {
            lemma_reach_row_same(g, h, fields, members, fields.len());
        },
        (SchemaView::Choice(variants), ValueView::Choice(tag, members)) => {
            if tag < variants.len() {
                lemma_reach_row_same(
                    g,
                    h,
                    variants[tag as int],
                    members,
                    variants[tag as int].len(),
                );
            }
        },
        (SchemaView::Node(inner), ValueView::Node(id)) => {
            if g.contains_key(id) {
                lemma_reach_same(g, h, *inner, g[id].value);
            }
        },
        _ => {},
    }
}

/// What a node among the first `n` well-shaped items reaches, the items
/// reach.
pub proof fn lemma_reach_items_closed(
    g: Graph,
    e: SchemaView,
    items: Seq<ValueView>,
    n: nat,
    x: u32,
)
    requires
        n <= items.len(),
        forall|i: int| 0 <= i < n ==> typed(g, e, #[trigger] items[i]),
        reach_items(g, e, items, n).contains(x),
    ensures
        g.contains_key(x),
        reach(g, g[x].schema, g[x].value).subset_of(reach_items(g, e, items, n)),
    decreases e, 3nat, n,
{
    if n > 0 {
        if reach_items(g, e, items, (n - 1) as nat).contains(x) {
            lemma_reach_items_closed(g, e, items, (n - 1) as nat, x);
        } else {
            assert(typed(g, e, items[n - 1]));
            lemma_reach_closed(g, e, items[n - 1], x);
        }
    }
}

/// What a node among the first `n` well-shaped entries reaches, the entries
/// reach.
pub proof fn lemma_reach_entries_closed(
    g: Graph,
    s: SchemaView,
    entries: Seq<(ValueView, ValueView)>,
    n: nat,
    x: u32,
)
    requires
        s is Dict,
        n <= entries.len(),
        forall|i: int|
            0 <= i < n ==> typed(g, *s->Dict_0, (#[trigger] entries[i]).0) && typed(
                g,
                *s->Dict_1,
                entries[i].1,
            ),
        reach_entries(g, s, entries, n).contains(x),
    ensures
        g.contains_key(x),
        reach(g, g[x].schema, g[x].value).subset_of(reach_entries(g, s, entries, n)),
    decreases s, 0nat, n,
{
    if n > 0 {
        if reach_entries(g, s, entries, (n - 1) as nat).contains(x) {
            lemma_reach_entries_closed(g, s, entries, (n - 1) as nat, x);
        } else {
            assert(typed(g, *s->Dict_0, entries[n - 1].0));
            if reach(g, *s->Dict_0, entries[n - 1].0).contains(x) {
                lemma_reach_closed(g, *s->Dict_0, entries[n - 1].0, x);
            } else {
                lemma_reach_closed(g, *s->Dict_1, entries[n - 1].1, x);
            }
        }
    }
}

/// What a node among the first `n` members of a well-shaped row reaches,
/// the members reach.
pub proof fn lemma_reach_row_closed(
    g: Graph,
    fields: Seq<FieldView>,
    members: Seq<ValueView>,
    n: nat,
    x: u32,
)
    requires
        n <= fields.len(),
        typed_row(g, fields, members),
        reach_row(g, fields, members, n).contains(x),
    ensures
        g.contains_key(x),
        reach(g, g[x].schema, g[x].value).subset_of(reach_row(g, fields, members, n)),
    decreases fields, 0nat, n,
{
    lemma_typed_row(g, fields, members);
    if n > 0 {
        if reach_row(g, fields, members, (n - 1) as nat).contains(x) {
            lemma_reach_row_closed(g, fields, members, (n - 1) as nat, x);
        } else {
            assert(typed(g, fields[n - 1].ty, members[n - 1]));
            lemma_reach_closed(g, fields[n - 1].ty, members[n - 1], x);
        }
    }
}

/// What a node that a well-shaped value reaches reaches, the value reaches.
pub proof fn lemma_reach_closed(g: Graph, s: SchemaView, v: ValueView, x: u32)
    requires
        typed(g, s, v),
        reach(g, s, v).contains(x),
    ensures
        g.contains_key(x),
        reach(g, g[x].schema, g[x].value).subset_of(reach(g, s, v)),
    decreases s, 1nat, 0nat,
{
    match s {
        SchemaView::List(e) => {
            lemma_typed_list(g, *e, v->List_0);
            lemma_reach_items_closed(g, *e, v->List_0, v->List_0.len(), x);
        },
        SchemaView::Dict(k, w) => {
            lemma_typed_dict(g, *k, *w, v->Dict_0);
            lemma_reach_entries_closed(g, s, v->Dict_0, v->Dict_0.len(), x);
        },
        SchemaView::Maybe(e) => {
            match v->Maybe_0 {
                Some(inner) => {
                    lemma_reach_closed(g, *e, *inner, x);
                },
                None => {},
            }
        },
        SchemaView::Record(fields) => {
            lemma_typed_row(g, fields, v->Record_0);
            lemma_reach_row_closed(g, fields, v->Record_0, fields.len(), x);
        },
        SchemaView::Choice(variants) => {
            let fields = variants[v->Choice_0 as int];
            lemma_typed_row(g, fields, v->Choice_1);
            lemma_reach_row_closed(g, fields, v->Choice_1, fields.len(), x);
        },
        SchemaView::Node(inner) => {
            let id = v->Node_0;
            if x != id {
                lemma_reach_closed(g, *inner, g[id].value, x);
            }
        },
        _ => {},
    }
}

/// How much there is to a schema: one for the schema itself, and what there
/// is to the schemas inside it.
pub open spec fn weight(s: SchemaView) -> nat
    decreases s, 0nat,
{
    match s {
        SchemaView::Scalar(_) => 1,
        SchemaView::Text => 1,
        SchemaView::List(e) => 1 + weight(*e),
        SchemaView::Dict(k, w) => 1 + weight(*k) + weight(*w),
        SchemaView::Maybe(e) => 1 + weight(*e),
        SchemaView::Record(fields) => 1 + weight_row(fields, fields.len()),
        SchemaView::Choice(variants) => 1 + weight_variants(variants, variants.len()),
        SchemaView::Node(inner) => 1 + weight(*inner),
    }
}

/// What there is to the shapes of the first `n` of `fields`.
pub open spec fn weight_row(fields: Seq<FieldView>, n: nat) -> nat
    decreases fields, n,
{
    if n == 0 || n > fields.len() {
        0
    } else {
        weight_row(fields, (n - 1) as nat) + weight(fields[n - 1].ty)
    }
}

/// What there is to the first `n` of `variants`.
pub open spec fn weight_variants(variants: Seq<Seq<FieldView>>, n: nat) -> nat
    decreases variants, n,
{
    if n == 0 || n > variants.len() {
        0
    } else {
        weight_variants(variants, (n - 1) as nat) + weight_row(
            variants[n - 1],
            variants[n - 1].len(),
        )
    }
}

/// There is no more to the shape of one field than to the shapes of the
/// fields up to it and beyond.
pub proof fn lemma_weight_row(fields: Seq<FieldView>, i: int, n: nat)
    requires
        0 <= i < n <= fields.len(),
    ensures
        weight(fields[i].ty) <= weight_row(fields, n),
    decreases n,
{
    if i < n - 1 {
        lemma_weight_row(fields, i, (n - 1) as nat);
    }
}

/// There is no more to one variant than to the variants up to it and
/// beyond.
pub proof fn lemma_weight_variants(variants: Seq<Seq<FieldView>>, i: int, n: nat)
    requires
        0 <= i < n <= variants.len(),
    ensures
        weight_row(variants[i], variants[i].len()) <= weight_variants(variants, n),
    decreases n,
{
    if i < n - 1 {
        lemma_weight_variants(variants, i, (n - 1) as nat);
    }
}

/// A node among what the first `n` well-shaped items reach has a lighter
/// shape than a list of such items.
pub proof fn lemma_reach_items_lighter(
    g: Graph,
    e: SchemaView,
    items: Seq<ValueView>,
    n: nat,
    x: u32,
)
    requires
        n <= items.len(),
        forall|i: int| 0 <= i < n ==> typed(g, e, #[trigger] items[i]),
        reach_items(g, e, items, n).contains(x),
    ensures
        weight(g[x].schema) < weight(e),
    decreases e, 3nat, n,
{
    if n > 0 {
        if reach_items(g, e, items, (n - 1) as nat).contains(x) {
            lemma_reach_items_lighter(g, e, items, (n - 1) as nat, x);
        } else {
            assert(typed(g, e, items[n - 1]));
            lemma_reach_lighter(g, e, items[n - 1], x);
        }
    }
}

/// A node among what the first `n` well-shaped entries reach has a lighter
/// shape than the mapping.
pub proof fn lemma_reach_entries_lighter(
    g: Graph,
    s: SchemaView,
    entries: Seq<(ValueView, ValueView)>,
    n: nat,
    x: u32,
)
    requires
        s is Dict,
        n <= entries.len(),
        forall|i: int|
            0 <= i < n ==> typed(g, *s->Dict_0, (#[trigger] entries[i]).0) && typed(
                g,
                *s->Dict_1,
                entries[i].1,
            ),
        reach_entries(g, s, entries, n).contains(x),
    ensures
        weight(g[x].schema) < weight(s),
    decreases s, 0nat, n,
{
    if n > 0 {
        if reach_entries(g, s, entries, (n - 1) as nat).contains(x) {
            lemma_reach_entries_lighter(g, s, entries, (n - 1) as nat, x);
        } else {
            assert(typed(g, *s->Dict_0, entries[n - 1].0));
            if reach(g, *s->Dict_0, entries[n - 1].0).contains(x) {
                lemma_reach_lighter(g, *s->Dict_0, entries[n - 1].0, x);
            } else {
                lemma_reach_lighter(g, *s->Dict_1, entries[n - 1].1, x);
            }
        }
    }
}

/// A node among what the first `n` members of a well-shaped row reach has a
/// shape no heavier than the fields together.
pub proof fn lemma_reach_row_lighter(
    g: Graph,
    fields: Seq<FieldView>,
    members: Seq<ValueView>,
    n: nat,
    x: u32,
)
    requires
        n <= fields.len(),
        typed_row(g, fields, members),
        reach_row(g, fields, members, n).contains(x),
    ensures
        weight(g[x].schema) < weight_row(fields, fields.len()),
    decreases fields, 0nat, n,
{
    lemma_typed_row(g, fields, members);
    if n > 0 {
        if reach_row(g, fields, members, (n - 1) as nat).contains(x) {
            lemma_reach_row_lighter(g, fields, members, (n - 1) as nat, x);
        } else {
            assert(typed(g, fields[n - 1].ty, members[n - 1]));
            lemma_reach_lighter(g, fields[n - 1].ty, members[n - 1], x);
            lemma_weight_row(fields, n - 1, fields.len());
        }
    }
}

/// A node that a well-shaped value reaches has a lighter shape than the
/// value.
pub proof fn lemma_reach_lighter(g: Graph, s: SchemaView, v: ValueView, x: u32)
    requires
        typed(g, s, v),
        reach(g, s, v).contains(x),
    ensures
        weight(g[x].schema) < weight(s),
    decreases s, 1nat, 0nat,
{
    match s {
        SchemaView::List(e) => {
            lemma_typed_list(g, *e, v->List_0);
            lemma_reach_items_lighter(g, *e, v->List_0, v->List_0.len(), x);
        },
        SchemaView::Dict(k, w) => {
            lemma_typed_dict(g, *k, *w, v->Dict_0);
            lemma_reach_entries_lighter(g, s, v->Dict_0, v->Dict_0.len(), x);
        },
        SchemaView::Maybe(e) => {
            match v->Maybe_0 {
                Some(inner) => {
                    lemma_reach_lighter(g, *e, *inner, x);
                },
                None => {},
            }
        },
        SchemaView::Record(fields) => {
            lemma_typed_row(g, fields, v->Record_0);
            lemma_reach_row_lighter(g, fields, v->Record_0, fields.len(), x);
        },
        SchemaView::Choice(variants) => {
            let tag = v->Choice_0 as int;
            let fields = variants[tag];
            lemma_typed_row(g, fields, v->Choice_1);
            lemma_reach_row_lighter(g, fields, v->Choice_1, fields.len(), x);
            lemma_weight_variants(variants, tag, variants.len());
        },
        SchemaView::Node(inner) => {
            let id = v->Node_0;
            if x != id {
                lemma_reach_lighter(g, *inner, g[id].value, x);
            }
        },
        _ => {},
    }
}

/// Whether each node's value has the node's shape.
pub open spec fn well_typed(g: Graph) -> bool {
    forall|id: u32| #[trigger] g.contains_key(id) ==> typed(g, g[id].schema, g[id].value)
}

/// No node's value reaches the node itself, where each node's value has the
/// node's shape.
pub proof fn lemma_no_cycle(g: Graph, id: u32)
    requires
        g.contains_key(id),
        typed(g, g[id].schema, g[id].value),
    ensures
        !reach(g, g[id].schema, g[id].value).contains(id),
{
    if reach(g, g[id].schema, g[id].value).contains(id) {
        lemma_reach_lighter(g, g[id].schema, g[id].value, id);
    }
}

/// Whether the node `id` is the same in both graphs but for its
/// connections.
pub open spec fn alike(g: Graph, h: Graph, id: u32) -> bool {
    h[id] == (NodeView { conns: h[id].conns, ..g[id] })
}

/// Whether the node `id` is the same in both graphs.
pub open spec fn untouched(g: Graph, h: Graph, id: u32) -> bool {
    h[id] == g[id]
}

/// Whether `h` is `g` with other connections for some of the nodes `ids`.
pub open spec fn only_conns(g: Graph, h: Graph, ids: Set<u32>) -> bool {
    &&& forall|id: u32| #[trigger] g.contains_key(id) <==> h.contains_key(id)
    &&& forall|id: u32| g.contains_key(id) ==> #[trigger] alike(g, h, id)
    &&& forall|id: u32| g.contains_key(id) && !ids.contains(id) ==> #[trigger] untouched(g, h, id)
}

/// Whether the node `id` is heard of on just the connections that are due
/// to it.
pub open spec fn at_rest(g: Graph, id: u32) -> bool {
    g[id].conns == due(g, id)
}

/// Whether each of the nodes `ids` is heard of on just the connections that
/// are due to it.
pub open spec fn settled_on(g: Graph, ids: Set<u32>) -> bool {
    forall|id: u32| ids.contains(id) && g.contains_key(id) ==> #[trigger] at_rest(g, id)
}

/// Whether every node is heard of on just the connections that are due to
/// it: the connection whose root it is, and what its parents pass on.
pub open spec fn settled(g: Graph) -> bool {
    forall|id: u32| g.contains_key(id) ==> #[trigger] at_rest(g, id)
}

/// Whether `q` is a parent of `d` only where the value of `q` reaches `d`.
pub open spec fn edge_ok(g: Graph, d: u32, q: u32) -> bool {
    g.contains_key(d) && g.contains_key(q) && g[d].parents.contains(q) ==> reach(
        g,
        g[q].schema,
        g[q].value,
    ).contains(d)
}

/// Whether a node is a parent of another only where its value reaches the
/// other.
pub open spec fn edges_within(g: Graph) -> bool {
    forall|d: u32, q: u32| #[trigger] edge_ok(g, d, q)
}

/// Whether none of the parents of `n` is among `ids`.
pub open spec fn parents_outside(g: Graph, n: u32, ids: Set<u32>) -> bool {
    forall|q: u32|
        g[n].parents.contains(q) && g.contains_key(q) ==> !(#[trigger] ids.contains(q))
}

/// With other connections for some nodes, the values are the same, each
/// value still has its shape, and the parents are still parents only of
/// what their values reach.
pub proof fn lemma_only_conns(g: Graph, h: Graph, ids: Set<u32>)
    requires
        only_conns(g, h, ids),
    ensures
        same_values(g, h),
        same_values(h, g),
        well_typed(g) ==> well_typed(h),
        edges_within(g) ==> edges_within(h),
{
    assert forall|id: u32| #[trigger] g.contains_key(id) implies g[id].schema == h[id].schema
        && g[id].value == h[id].value by {
        assert(alike(g, h, id));
    }
    assert(same_values(g, h));
    assert forall|id: u32| #[trigger] h.contains_key(id) implies h[id].schema == g[id].schema
        && h[id].value == g[id].value by {
        assert(g.contains_key(id));
        assert(alike(g, h, id));
    }
    assert forall|id: u32| #[trigger] h.contains_key(id) <==> g.contains_key(id) by {
        assert(g.contains_key(id) <==> h.contains_key(id));
    }
    assert(same_values(h, g));
    if well_typed(g) {
        assert forall|id: u32| #[trigger] h.contains_key(id) implies typed(
            h,
            h[id].schema,
            h[id].value,
        ) by {
            assert(g.contains_key(id));
            assert(alike(g, h, id));
            lemma_typed_same(g, h, g[id].schema, g[id].value);
        }
    }
    if edges_within(g) {
        assert forall|d: u32, q: u32| #[trigger] edge_ok(h, d, q) by {
            if h.contains_key(d) && h.contains_key(q) && h[d].parents.contains(q) {
                assert(g.contains_key(d) && g.contains_key(q));
                assert(alike(g, h, d));
                assert(alike(g, h, q));
                assert(edge_ok(g, d, q));
                lemma_reach_same(g, h, g[q].schema, g[q].value);
            }
        }
    }
}

/// Other connections for some nodes, and then for others, are other
/// connections for some of all of them.
pub proof fn lemma_only_conns_twice(g: Graph, g1: Graph, g2: Graph, a: Set<u32>, b: Set<u32>)
    requires
        only_conns(g, g1, a),
        only_conns(g1, g2, b),
    ensures
        only_conns(g, g2, a.union(b)),
{
    assert forall|id: u32| g.contains_key(id) implies #[trigger] alike(g, g2, id) by {
        assert(alike(g, g1, id));
        assert(g1.contains_key(id));
        assert(alike(g1, g2, id));
    }
    assert forall|id: u32| g.contains_key(id) && !a.union(b).contains(id) implies #[trigger] untouched(
        g,
        g2,
        id,
    ) by {
        assert(untouched(g, g1, id));
        assert(g1.contains_key(id));
        assert(untouched(g1, g2, id));
    }
}

/// What is due to a node is the same after other nodes than its parents
/// have got other connections.
pub proof fn lemma_due_same(g: Graph, h: Graph, ids: Set<u32>, n: u32)
    requires
        only_conns(g, h, ids),
        g.contains_key(n),
        parents_outside(g, n, ids),
    ensures
        due(h, n) == due(g, n),
{
    assert(alike(g, h, n));
    let parents = g[n].parents;
    assert forall|p: u32| parents.contains(p) implies lent(h, p) == lent(g, p) by {
        if g.contains_key(p) {
            assert(!ids.contains(p));
            assert(untouched(g, h, p));
        } else {
            assert(!h.contains_key(p));
        }
    }
    assert forall|x: usize| inherited(h, parents).contains(x) <==> inherited(g, parents).contains(
        x,
    ) by {
        if inherited(h, parents).contains(x) {
            let p = choose|p: u32| parents.contains(p) && #[trigger] lent(h, p).contains(x);
            assert(lent(g, p).contains(x));
        }
        if inherited(g, parents).contains(x) {
            let p = choose|p: u32| parents.contains(p) && #[trigger] lent(g, p).contains(x);
            assert(lent(h, p).contains(x));
        }
    }
    assert(inherited(h, parents) =~= inherited(g, parents));
}

/// Whether what each of the nodes `ids` reaches is among `ids`.
pub open spec fn closed(g: Graph, ids: Set<u32>) -> bool {
    forall|q: u32|
        #[trigger] ids.contains(q) && g.contains_key(q) ==> reach(
            g,
            g[q].schema,
            g[q].value,
        ).subset_of(ids)
}

/// After a walk has settled the nodes `a` and a second walk the nodes `b`,
/// all of them are settled, where the second walk has touched only `b` and
/// `b` holds what its nodes reach.
pub proof fn lemma_settled_twice(g1: Graph, g2: Graph, a: Set<u32>, b: Set<u32>)
    requires
        edges_within(g1),
        only_conns(g1, g2, b),
        closed(g1, b),
        settled_on(g1, a),
        settled_on(g2, b),
    ensures
        settled_on(g2, a.union(b)),
{
    assert forall|n: u32| a.union(b).contains(n) && g2.contains_key(n) implies #[trigger] at_rest(
        g2,
        n,
    ) by {
        if !b.contains(n) {
            assert(g1.contains_key(n));
            assert(untouched(g1, g2, n));
            assert(at_rest(g1, n));
            assert forall|q: u32| g1[n].parents.contains(q) && g1.contains_key(q) implies !(
            #[trigger] b.contains(q)) by {
                if b.contains(q) {
                    assert(edge_ok(g1, n, q));
                    assert(reach(g1, g1[q].schema, g1[q].value).subset_of(b));
                }
            }
            lemma_due_same(g1, g2, b, n);
        }
    }
}

/// What a well-shaped value reaches holds what its nodes reach.
pub proof fn lemma_reach_is_closed(g: Graph, s: SchemaView, v: ValueView)
    requires
        typed(g, s, v),
    ensures
        closed(g, reach(g, s, v)),
{
    assert forall|q: u32| #[trigger]
        reach(g, s, v).contains(q) && g.contains_key(q) implies reach(
        g,
        g[q].schema,
        g[q].value,
    ).subset_of(reach(g, s, v)) by {
        lemma_reach_closed(g, s, v, q);
    }
}

/// The law of `lemma_refresh`, as a predicate: the walk has given other
/// connections to nodes that the value reaches and to no others, and the
/// nodes that the value reaches are settled.
pub open spec fn refreshes(g: Graph, h: Graph, ids: Set<u32>) -> bool {
    only_conns(g, h, ids) && settled_on(h, ids)
}

/// A refreshing walk over the first `n` items of a list settles what they
/// reach.
pub proof fn lemma_refresh_items(g: Graph, e: SchemaView, items: Seq<ValueView>, n: nat)
    requires
        well_typed(g),
        edges_within(g),
        n <= items.len(),
        forall|i: int| 0 <= i < items.len() ==> typed(g, e, #[trigger] items[i]),
    ensures
        refreshes(
            g,
            walked_items(g, Pass::Refresh, e, items, n),
            reach_items(g, e, items, n),
        ),
    decreases e, 3nat, n,
{
    if n > 0 {
        let g1 = walked_items(g, Pass::Refresh, e, items, (n - 1) as nat);
        let a = reach_items(g, e, items, (n - 1) as nat);
        lemma_refresh_items(g, e, items, (n - 1) as nat);
        lemma_only_conns(g, g1, a);
        assert(typed(g, e, items[n - 1]));
        lemma_typed_same(g, g1, e, items[n - 1]);
        lemma_reach_same(g, g1, e, items[n - 1]);
        let b = reach(g1, e, items[n - 1]);
        lemma_refresh(g1, e, items[n - 1]);
        let g2 = walked(g1, Pass::Refresh, e, items[n - 1]);
        lemma_only_conns_twice(g, g1, g2, a, b);
        lemma_reach_is_closed(g1, e, items[n - 1]);
        lemma_settled_twice(g1, g2, a, b);
    } else {
        assert(only_conns(g, g, Set::empty()));
    }
}

/// A refreshing walk over the first `n` entries of a mapping settles what
/// they reach.
pub proof fn lemma_refresh_entries(
    g: Graph,
    s: SchemaView,
    entries: Seq<(ValueView, ValueView)>,
    n: nat,
)
    requires
        s is Dict,
        well_typed(g),
        edges_within(g),
        n <= entries.len(),
        forall|i: int|
            0 <= i < entries.len() ==> typed(g, *s->Dict_0, (#[trigger] entries[i]).0) && typed(
                g,
                *s->Dict_1,
                entries[i].1,
            ),
    ensures
        refreshes(
            g,
            walked_entries(g, Pass::Refresh, s, entries, n),
            reach_entries(g, s, entries, n),
        ),
    decreases s, 0nat, n,
{
    if n > 0 {
        let k = *s->Dict_0;
        let w = *s->Dict_1;
        let g1 = walked_entries(g, Pass::Refresh, s, entries, (n - 1) as nat);
        let a = reach_entries(g, s, entries, (n - 1) as nat);
        lemma_refresh_entries(g, s, entries, (n - 1) as nat);
        lemma_only_conns(g, g1, a);
        assert(typed(g, k, entries[n - 1].0) && typed(g, w, entries[n - 1].1));
        lemma_typed_same(g, g1, k, entries[n - 1].0);
        lemma_reach_same(g, g1, k, entries[n - 1].0);
        let b = reach(g1, k, entries[n - 1].0);
        lemma_refresh(g1, k, entries[n - 1].0);
        let g2 = walked(g1, Pass::Refresh, k, entries[n - 1].0);
        lemma_only_conns_twice(g, g1, g2, a, b);
        lemma_reach_is_closed(g1, k, entries[n - 1].0);
        lemma_settled_twice(g1, g2, a, b);
        lemma_only_conns(g1, g2, b);
        lemma_only_conns(g, g2, a.union(b));
        lemma_typed_same(g, g2, w, entries[n - 1].1);
        lemma_reach_same(g, g2, w, entries[n - 1].1);
        let c = reach(g2, w, entries[n - 1].1);
        lemma_refresh(g2, w, entries[n - 1].1);
        let g3 = walked(g2, Pass::Refresh, w, entries[n - 1].1);
        lemma_only_conns_twice(g, g2, g3, a.union(b), c);
        lemma_reach_is_closed(g2, w, entries[n - 1].1);
        lemma_settled_twice(g2, g3, a.union(b), c);
        assert(a.union(b).union(c) =~= a.union(b.union(c)));
    } else {
        assert(only_conns(g, g, Set::empty()));
    }
}

/// A refreshing walk over the first `n` members of a row settles what they
/// reach.
pub proof fn lemma_refresh_row(g: Graph, fields: Seq<FieldView>, members: Seq<ValueView>, n: nat)
    requires
        well_typed(g),
        edges_within(g),
        n <= fields.len(),
        typed_row(g, fields, members),
    ensures
        refreshes(
            g,
            walked_row(g, Pass::Refresh, fields, members, n),
            reach_row(g, fields, members, n),
        ),
    decreases fields, 0nat, n,
{
    lemma_typed_row(g, fields, members);
    if n > 0 {
        let g1 = walked_row(g, Pass::Refresh, fields, members, (n - 1) as nat);
        let a = reach_row(g, fields, members, (n - 1) as nat);
        lemma_refresh_row(g, fields, members, (n - 1) as nat);
        lemma_only_conns(g, g1, a);
        let s = fields[n - 1].ty;
        let v = members[n - 1];
        assert(typed(g, s, v));
        lemma_typed_same(g, g1, s, v);
        lemma_reach_same(g, g1, s, v);
        let b = reach(g1, s, v);
        lemma_refresh(g1, s, v);
        let g2 = walked(g1, Pass::Refresh, s, v);
        lemma_only_conns_twice(g, g1, g2, a, b);
        lemma_reach_is_closed(g1, s, v);
        lemma_settled_twice(g1, g2, a, b);
    } else {
        assert(only_conns(g, g, Set::empty()));
    }
}

/// A refreshing walk that comes to a node settles the node and what its
/// value reaches.
pub proof fn lemma_refresh_node(g: Graph, inner: SchemaView, id: u32)
    requires
        well_typed(g),
        edges_within(g),
        typed(g, SchemaView::Node(Box::new(inner)), ValueView::Node(id)),
    ensures
        refreshes(
            g,
            walked(g, Pass::Refresh, SchemaView::Node(Box::new(inner)), ValueView::Node(id)),
            reach(g, SchemaView::Node(Box::new(inner)), ValueView::Node(id)),
        ),
    decreases inner, 3nat, 0nat,
{
    let content = g[id].value;
    let g1 = refresh_one(g, id);
    assert(only_conns(g, g1, set![id])) by {
        assert forall|x: u32| g.contains_key(x) implies #[trigger] alike(g, g1, x) by {}
        assert forall|x: u32| g.contains_key(x) && !set![id].contains(x) implies #[trigger] untouched(
            g,
            g1,
            x,
        ) by {}
    }
    lemma_only_conns(g, g1, set![id]);
    lemma_typed_same(g, g1, inner, content);
    lemma_reach_same(g, g1, inner, content);
    let below = reach(g, inner, content);
    lemma_refresh(g1, inner, content);
    let g2 = walked(g1, Pass::Refresh, inner, content);
    lemma_only_conns_twice(g, g1, g2, set![id], below);
    assert(set![id].union(below) =~= below.insert(id));
    lemma_no_cycle(g, id);
    assert(untouched(g1, g2, id));
    assert forall|q: u32| g[id].parents.contains(q) && g.contains_key(q) implies !(
    #[trigger] below.insert(id).contains(q)) by {
        assert(edge_ok(g, id, q));
        if q != id && below.contains(q) {
            lemma_reach_closed(g, inner, content, q);
        }
    }
    lemma_due_same(g, g2, below.insert(id), id);
    assert(at_rest(g2, id));
}

/// A refreshing walk settles what the value reaches: afterwards each of
/// those nodes is heard of on the connection whose root it is and on what
/// its parents pass on, and no other node has changed.
///
/// Each node's value has the node's shape, and a node is a parent of
/// another only where its value reaches the other.
pub proof fn lemma_refresh(g: Graph, s: SchemaView, v: ValueView)
    requires
        well_typed(g),
        edges_within(g),
        typed(g, s, v),
    ensures
        refreshes(g, walked(g, Pass::Refresh, s, v), reach(g, s, v)),
    decreases s, 1nat, 0nat,
{
    match s {
        SchemaView::List(e) => {
            lemma_typed_list(g, *e, v->List_0);
            lemma_refresh_items(g, *e, v->List_0, v->List_0.len());
        },
        SchemaView::Dict(k, w) => {
            lemma_typed_dict(g, *k, *w, v->Dict_0);
            lemma_refresh_entries(g, s, v->Dict_0, v->Dict_0.len());
        },
        SchemaView::Maybe(e) => {
            match v->Maybe_0 {
                Some(inner) => {
                    lemma_refresh(g, *e, *inner);
                },
                None => {
                    assert(only_conns(g, g, Set::empty()));
                },
            }
        },
        SchemaView::Record(fields) => {
            lemma_typed_row(g, fields, v->Record_0);
            lemma_refresh_row(g, fields, v->Record_0, fields.len());
        },
        SchemaView::Choice(variants) => {
            let fields = variants[v->Choice_0 as int];
            lemma_typed_row(g, fields, v->Choice_1);
            lemma_refresh_row(g, fields, v->Choice_1, fields.len());
        },
        SchemaView::Node(inner) => {
            lemma_refresh_node(g, *inner, v->Node_0);
        },
        _ => {
            assert(only_conns(g, g, Set::empty()));
        },
    }
}

/// Whether the node `id` is the same in both graphs but for its parents.
pub open spec fn alike_but_parents(g: Graph, h: Graph, id: u32) -> bool {
    h[id] == (NodeView { parents: h[id].parents, ..g[id] })
}

/// Whether `q` is a parent of `x` in `h` only where it was one in `g` or its
/// value reaches `x`.
pub open spec fn parent_ok(g: Graph, h: Graph, x: u32, q: u32) -> bool {
    h.contains_key(x) && h[x].parents.contains(q) ==> g[x].parents.contains(q) || (g.contains_key(q)
        && reach(g, g[q].schema, g[q].value).contains(x))
}

/// Whether `h` is `g` with other parents for some of the nodes `ids`, each
/// new parent being a node whose value reaches the node.
pub open spec fn only_parents(g: Graph, h: Graph, ids: Set<u32>) -> bool {
    &&& forall|id: u32| #[trigger] g.contains_key(id) <==> h.contains_key(id)
    &&& forall|id: u32| g.contains_key(id) ==> #[trigger] alike_but_parents(g, h, id)
    &&& forall|id: u32| g.contains_key(id) && !ids.contains(id) ==> #[trigger] untouched(g, h, id)
    &&& forall|x: u32, q: u32| #[trigger] parent_ok(g, h, x, q)
}

/// With other parents for some nodes, the values are the same, each value
/// still has its shape, every node passes on what it did, and the parents
/// are still parents only of what their values reach.
pub proof fn lemma_only_parents(g: Graph, h: Graph, ids: Set<u32>)
    requires
        only_parents(g, h, ids),
    ensures
        same_values(g, h),
        same_values(h, g),
        well_typed(g) ==> well_typed(h),
        edges_within(g) ==> edges_within(h),
        forall|p: u32| #[trigger] lent(h, p) == lent(g, p),
{
    assert forall|id: u32| #[trigger] g.contains_key(id) implies g[id].schema == h[id].schema
        && g[id].value == h[id].value by {
        assert(alike_but_parents(g, h, id));
    }
    assert(same_values(g, h));
    assert forall|id: u32| #[trigger] h.contains_key(id) implies h[id].schema == g[id].schema
        && h[id].value == g[id].value by {
        assert(g.contains_key(id));
        assert(alike_but_parents(g, h, id));
    }
    assert forall|id: u32| #[trigger] h.contains_key(id) <==> g.contains_key(id) by {
        assert(g.contains_key(id) <==> h.contains_key(id));
    }
    assert(same_values(h, g));
    if well_typed(g) {
        assert forall|id: u32| #[trigger] h.contains_key(id) implies typed(
            h,
            h[id].schema,
            h[id].value,
        ) by {
            assert(g.contains_key(id));
            assert(alike_but_parents(g, h, id));
            lemma_typed_same(g, h, g[id].schema, g[id].value);
        }
    }
    if edges_within(g) {
        assert forall|d: u32, q: u32| #[trigger] edge_ok(h, d, q) by {
            if h.contains_key(d) && h.contains_key(q) && h[d].parents.contains(q) {
                assert(g.contains_key(d) && g.contains_key(q));
                assert(alike_but_parents(g, h, q));
                assert(parent_ok(g, h, d, q));
                assert(edge_ok(g, d, q));
                lemma_reach_same(g, h, g[q].schema, g[q].value);
            }
        }
    }
    assert forall|p: u32| #[trigger] lent(h, p) == lent(g, p) by {
        if g.contains_key(p) {
            assert(alike_but_parents(g, h, p));
        } else {
            assert(!h.contains_key(p));
        }
    }
}

/// A node that has kept its parents is due what it was due, after other
/// nodes have got other parents.
pub proof fn lemma_due_kept(g: Graph, h: Graph, ids: Set<u32>, n: u32)
    requires
        only_parents(g, h, ids),
        g.contains_key(n),
        untouched(g, h, n),
    ensures
        due(h, n) == due(g, n),
        at_rest(g, n) ==> at_rest(h, n),
{
    lemma_only_parents(g, h, ids);
    let parents = g[n].parents;
    assert forall|x: usize| inherited(h, parents).contains(x) <==> inherited(g, parents).contains(
        x,
    ) by {
        if inherited(h, parents).contains(x) {
            let p = choose|p: u32| parents.contains(p) && #[trigger] lent(h, p).contains(x);
            assert(lent(g, p) == lent(h, p));
            assert(lent(g, p).contains(x));
        }
        if inherited(g, parents).contains(x) {
            let p = choose|p: u32| parents.contains(p) && #[trigger] lent(g, p).contains(x);
            assert(lent(h, p) == lent(g, p));
            assert(lent(h, p).contains(x));
        }
    }
    assert(inherited(h, parents) =~= inherited(g, parents));
}

/// After a refreshing walk from a node, every node is settled, where every
/// node but that one and what its value reaches was settled before.
///
/// Each node's value has the node's shape, and a node is a parent of
/// another only where its value reaches the other.
pub proof fn lemma_refresh_settles(g: Graph, id: u32)
    requires
        well_typed(g),
        edges_within(g),
        g.contains_key(id),
        id > 0,
        forall|x: u32|
            g.contains_key(x) && x != id && !reach(g, g[id].schema, g[id].value).contains(x)
                ==> #[trigger] at_rest(g, x),
    ensures
        settled(from_node(g, Pass::Refresh, id)),
        well_typed(from_node(g, Pass::Refresh, id)),
        edges_within(from_node(g, Pass::Refresh, id)),
        same_values(g, from_node(g, Pass::Refresh, id)),
{
    let s = SchemaView::Node(Box::new(g[id].schema));
    let v = ValueView::Node(id);
    let h = from_node(g, Pass::Refresh, id);
    let r = reach(g, s, v);
    assert(typed(g, s, v));
    lemma_refresh(g, s, v);
    lemma_only_conns(g, h, r);
    lemma_reach_is_closed(g, s, v);
    assert forall|x: u32| h.contains_key(x) implies #[trigger] at_rest(h, x) by {
        if !r.contains(x) {
            assert(g.contains_key(x));
            assert(untouched(g, h, x));
            assert(at_rest(g, x));
            assert forall|q: u32| g[x].parents.contains(q) && g.contains_key(q) implies !(
            #[trigger] r.contains(q)) by {
                if r.contains(q) {
                    assert(edge_ok(g, x, q));
                    assert(reach(g, g[q].schema, g[q].value).subset_of(r));
                }
            }
            lemma_due_same(g, h, r, x);
        }
    }
}

/// After a refreshing walk over what the value of a node refers to, every
/// node is settled, where every node but what the value reaches was settled
/// before.
pub proof fn lemma_refresh_below_settles(g: Graph, id: u32)
    requires
        well_typed(g),
        edges_within(g),
        g.contains_key(id),
        forall|x: u32|
            g.contains_key(x) && !reach(g, g[id].schema, g[id].value).contains(x)
                ==> #[trigger] at_rest(g, x),
    ensures
        settled(below(g, Pass::Refresh, id)),
        well_typed(below(g, Pass::Refresh, id)),
        edges_within(below(g, Pass::Refresh, id)),
        same_values(g, below(g, Pass::Refresh, id)),
{
    let s = g[id].schema;
    let v = g[id].value;
    let h = below(g, Pass::Refresh, id);
    let r = reach(g, s, v);
    lemma_refresh(g, s, v);
    lemma_only_conns(g, h, r);
    lemma_reach_is_closed(g, s, v);
    assert forall|x: u32| h.contains_key(x) implies #[trigger] at_rest(h, x) by {
        if !r.contains(x) {
            assert(g.contains_key(x));
            assert(untouched(g, h, x));
            assert(at_rest(g, x));
            assert forall|q: u32| g[x].parents.contains(q) && g.contains_key(q) implies !(
            #[trigger] r.contains(q)) by {
                if r.contains(q) {
                    assert(edge_ok(g, x, q));
                    assert(reach(g, g[q].schema, g[q].value).subset_of(r));
                }
            }
            lemma_due_same(g, h, r, x);
        }
    }
}

/// Recording that the value of `parent` refers to `child` leaves every node
/// settled: the child then hears what the parent passes on, and so does
/// whatever the child's value reaches.
pub proof fn lemma_add_ref(g: Graph, child: u32, parent: u32)
    requires
        settled(g),
        well_typed(g),
        edges_within(g),
        child > 0,
        g.contains_key(child),
        g.contains_key(parent),
        reach(g, g[parent].schema, g[parent].value).contains(child),
    ensures
        settled(from_node(with_parent(g, child, parent), Pass::Refresh, child)),
        well_typed(from_node(with_parent(g, child, parent), Pass::Refresh, child)),
        edges_within(from_node(with_parent(g, child, parent), Pass::Refresh, child)),
{
    let g0 = with_parent(g, child, parent);
    assert(only_parents(g, g0, set![child])) by {
        assert forall|x: u32| g.contains_key(x) implies #[trigger] alike_but_parents(g, g0, x) by {}
        assert forall|x: u32| g.contains_key(x) && !set![child].contains(x) implies #[trigger] untouched(
            g,
            g0,
            x,
        ) by {}
        assert forall|x: u32, q: u32| #[trigger] parent_ok(g, g0, x, q) by {}
    }
    lemma_only_parents(g, g0, set![child]);
    assert forall|x: u32|
        g0.contains_key(x) && x != child && !reach(g0, g0[child].schema, g0[child].value).contains(
            x,
        ) implies #[trigger] at_rest(g0, x) by {
        assert(g.contains_key(x));
        assert(untouched(g, g0, x));
        assert(at_rest(g, x));
        lemma_due_kept(g, g0, set![child], x);
    }
    lemma_refresh_settles(g0, child);
}

/// Recording that the value of `parent` no longer refers to `child` leaves
/// every node settled: the child then hears only of the connection whose
/// root it is and what its other parents pass on, and so it is with
/// whatever the child's value reaches.
pub proof fn lemma_remove_ref(g: Graph, child: u32, parent: u32)
    requires
        settled(g),
        well_typed(g),
        edges_within(g),
        child > 0,
        g.contains_key(child),
    ensures
        settled(from_node(without_parent(g, child, parent), Pass::Refresh, child)),
        well_typed(from_node(without_parent(g, child, parent), Pass::Refresh, child)),
        edges_within(from_node(without_parent(g, child, parent), Pass::Refresh, child)),
        !from_node(without_parent(g, child, parent), Pass::Refresh, child)[child].parents.contains(
            parent,
        ),
        forall|x: usize| #[trigger]
            from_node(without_parent(g, child, parent), Pass::Refresh, child)[child].conns.contains(
                x,
            ) ==> g[child].root == Some(x) || exists|q: u32|
                q != parent && g[child].parents.contains(q) && #[trigger] lent(
                    from_node(without_parent(g, child, parent), Pass::Refresh, child),
                    q,
                ).contains(x),
{
    let g0 = without_parent(g, child, parent);
    assert(only_parents(g, g0, set![child])) by {
        assert forall|x: u32| g.contains_key(x) implies #[trigger] alike_but_parents(g, g0, x) by {}
        assert forall|x: u32| g.contains_key(x) && !set![child].contains(x) implies #[trigger] untouched(
            g,
            g0,
            x,
        ) by {}
        assert forall|x: u32, q: u32| #[trigger] parent_ok(g, g0, x, q) by {}
    }
    lemma_only_parents(g, g0, set![child]);
    assert forall|x: u32|
        g0.contains_key(x) && x != child && !reach(g0, g0[child].schema, g0[child].value).contains(
            x,
        ) implies #[trigger] at_rest(g0, x) by {
        assert(g.contains_key(x));
        assert(untouched(g, g0, x));
        assert(at_rest(g, x));
        lemma_due_kept(g, g0, set![child], x);
    }
    lemma_refresh_settles(g0, child);
    let h = from_node(g0, Pass::Refresh, child);
    let s = SchemaView::Node(Box::new(g0[child].schema));
    lemma_refresh(g0, s, ValueView::Node(child));
    assert(alike(g0, h, child));
    assert(at_rest(h, child));
    assert forall|x: usize| #[trigger] h[child].conns.contains(x) implies g[child].root == Some(x)
        || exists|q: u32|
        q != parent && g[child].parents.contains(q) && #[trigger] lent(h, q).contains(x) by {
        if g[child].root != Some(x) {
            assert(inherited(h, h[child].parents).contains(x));
            let q = choose|q: u32| h[child].parents.contains(q) && #[trigger] lent(h, q).contains(x);
            assert(q != parent && g[child].parents.contains(q) && lent(h, q).contains(x));
        }
    }
}

/// In a settled graph a node hears of the connection whose root it is, and
/// of whatever its parents pass on.
pub proof fn lemma_heard(g: Graph, child: u32, parent: u32)
    requires
        settled(g),
        g.contains_key(child),
    ensures
        g[child].root matches Some(c) ==> g[child].conns.contains(c),
        g[child].parents.contains(parent) ==> lent(g, parent).subset_of(g[child].conns),
{
    assert(at_rest(g, child));
    if g[child].parents.contains(parent) {
        assert forall|x: usize| lent(g, parent).contains(x) implies g[child].conns.contains(x) by {
            assert(g[child].parents.contains(parent) && lent(g, parent).contains(x));
            assert(inherited(g, g[child].parents).contains(x));
        }
    }
}

/// Other parents for some nodes, and then for others, are other parents for
/// some of all of them.
pub proof fn lemma_only_parents_twice(g: Graph, g1: Graph, g2: Graph, a: Set<u32>, b: Set<u32>)
    requires
        only_parents(g, g1, a),
        only_parents(g1, g2, b),
    ensures
        only_parents(g, g2, a.union(b)),
{
    lemma_only_parents(g, g1, a);
    assert forall|id: u32| g.contains_key(id) implies #[trigger] alike_but_parents(g, g2, id) by {
        assert(alike_but_parents(g, g1, id));
        assert(g1.contains_key(id));
        assert(alike_but_parents(g1, g2, id));
    }
    assert forall|id: u32| g.contains_key(id) && !a.union(b).contains(id) implies #[trigger] untouched(
        g,
        g2,
        id,
    ) by {
        assert(untouched(g, g1, id));
        assert(g1.contains_key(id));
        assert(untouched(g1, g2, id));
    }
    assert forall|x: u32, q: u32| #[trigger] parent_ok(g, g2, x, q) by {
        if g2.contains_key(x) && g2[x].parents.contains(q) {
            assert(parent_ok(g1, g2, x, q));
            assert(g1.contains_key(x));
            if g1[x].parents.contains(q) {
                assert(parent_ok(g, g1, x, q));
            } else {
                assert(g.contains_key(q));
                assert(alike_but_parents(g, g1, q));
                lemma_reach_same(g, g1, g[q].schema, g[q].value);
            }
        }
    }
}

/// Nothing has changed where nothing was done.
pub proof fn lemma_only_parents_none(g: Graph)
    ensures
        only_parents(g, g, Set::empty()),
{
    assert forall|x: u32, q: u32| #[trigger] parent_ok(g, g, x, q) by {}
}

/// The law of `lemma_adopt`, as a predicate.
pub open spec fn adopts(g: Graph, h: Graph, ids: Set<u32>) -> bool {
    only_parents(g, h, ids)
}

/// Whether `s` and `v` are part of what the value of `p` holds, as far as
/// the nodes go that they reach.
pub open spec fn within(g: Graph, p: u32, s: SchemaView, v: ValueView) -> bool {
    g.contains_key(p) && reach(g, s, v).subset_of(reach(g, g[p].schema, g[p].value))
}

/// An adopting walk over the first `n` items of a list gives parents only
/// to nodes that the items reach.
pub proof fn lemma_adopt_items(
    g: Graph,
    p: u32,
    e: SchemaView,
    items: Seq<ValueView>,
    n: nat,
)
    requires
        n <= items.len(),
        forall|i: int| 0 <= i < items.len() ==> typed(g, e, #[trigger] items[i]),
        g.contains_key(p),
        reach_items(g, e, items, n).subset_of(reach(g, g[p].schema, g[p].value)),
    ensures
        adopts(g, walked_items(g, Pass::Adopt(p), e, items, n), reach_items(g, e, items, n)),
    decreases e, 3nat, n,
{
    if n > 0 {
        let g1 = walked_items(g, Pass::Adopt(p), e, items, (n - 1) as nat);
        let a = reach_items(g, e, items, (n - 1) as nat);
        lemma_adopt_items(g, p, e, items, (n - 1) as nat);
        lemma_only_parents(g, g1, a);
        assert(typed(g, e, items[n - 1]));
        lemma_typed_same(g, g1, e, items[n - 1]);
        lemma_reach_same(g, g1, e, items[n - 1]);
        assert(alike_but_parents(g, g1, p));
        lemma_reach_same(g, g1, g[p].schema, g[p].value);
        lemma_adopt(g1, p, e, items[n - 1]);
        let g2 = walked(g1, Pass::Adopt(p), e, items[n - 1]);
        lemma_only_parents_twice(g, g1, g2, a, reach(g1, e, items[n - 1]));
    } else {
        lemma_only_parents_none(g);
    }
}

/// An adopting walk over the first `n` entries of a mapping gives parents
/// only to nodes that the entries reach.
pub proof fn lemma_adopt_entries(
    g: Graph,
    p: u32,
    s: SchemaView,
    entries: Seq<(ValueView, ValueView)>,
    n: nat,
)
    requires
        s is Dict,
        n <= entries.len(),
        forall|i: int|
            0 <= i < entries.len() ==> typed(g, *s->Dict_0, (#[trigger] entries[i]).0) && typed(
                g,
                *s->Dict_1,
                entries[i].1,
            ),
        g.contains_key(p),
        reach_entries(g, s, entries, n).subset_of(reach(g, g[p].schema, g[p].value)),
    ensures
        adopts(g, walked_entries(g, Pass::Adopt(p), s, entries, n), reach_entries(g, s, entries, n)),
    decreases s, 0nat, n,
{
    if n > 0 {
        let k = *s->Dict_0;
        let w = *s->Dict_1;
        let g1 = walked_entries(g, Pass::Adopt(p), s, entries, (n - 1) as nat);
        let a = reach_entries(g, s, entries, (n - 1) as nat);
        lemma_adopt_entries(g, p, s, entries, (n - 1) as nat);
        lemma_only_parents(g, g1, a);
        assert(typed(g, k, entries[n - 1].0) && typed(g, w, entries[n - 1].1));
        lemma_typed_same(g, g1, k, entries[n - 1].0);
        lemma_reach_same(g, g1, k, entries[n - 1].0);
        assert(alike_but_parents(g, g1, p));
        lemma_reach_same(g, g1, g[p].schema, g[p].value);
        let b = reach(g1, k, entries[n - 1].0);
        lemma_adopt(g1, p, k, entries[n - 1].0);
        let g2 = walked(g1, Pass::Adopt(p), k, entries[n - 1].0);
        lemma_only_parents_twice(g, g1, g2, a, b);
        lemma_only_parents(g, g2, a.union(b));
        lemma_typed_same(g, g2, w, entries[n - 1].1);
        lemma_reach_same(g, g2, w, entries[n - 1].1);
        assert(alike_but_parents(g, g2, p));
        lemma_reach_same(g, g2, g[p].schema, g[p].value);
        let c = reach(g2, w, entries[n - 1].1);
        lemma_adopt(g2, p, w, entries[n - 1].1);
        let g3 = walked(g2, Pass::Adopt(p), w, entries[n - 1].1);
        lemma_only_parents_twice(g, g2, g3, a.union(b), c);
        assert(a.union(b).union(c) =~= a.union(b.union(c)));
    } else {
        lemma_only_parents_none(g);
    }
}

/// An adopting walk over the first `n` members of a row gives parents only
/// to nodes that the members reach.
pub proof fn lemma_adopt_row(
    g: Graph,
    p: u32,
    fields: Seq<FieldView>,
    members: Seq<ValueView>,
    n: nat,
)
    requires
        n <= fields.len(),
        typed_row(g, fields, members),
        g.contains_key(p),
        reach_row(g, fields, members, n).subset_of(reach(g, g[p].schema, g[p].value)),
    ensures
        adopts(
            g,
            walked_row(g, Pass::Adopt(p), fields, members, n),
            reach_row(g, fields, members, n),
        ),
    decreases fields, 0nat, n,
{
    lemma_typed_row(g, fields, members);
    if n > 0 {
        let g1 = walked_row(g, Pass::Adopt(p), fields, members, (n - 1) as nat);
        let a = reach_row(g, fields, members, (n - 1) as nat);
        lemma_adopt_row(g, p, fields, members, (n - 1) as nat);
        lemma_only_parents(g, g1, a);
        let s = fields[n - 1].ty;
        let v = members[n - 1];
        assert(typed(g, s, v));
        lemma_typed_same(g, g1, s, v);
        lemma_reach_same(g, g1, s, v);
        assert(alike_but_parents(g, g1, p));
        lemma_reach_same(g, g1, g[p].schema, g[p].value);
        lemma_adopt(g1, p, s, v);
        let g2 = walked(g1, Pass::Adopt(p), s, v);
        lemma_only_parents_twice(g, g1, g2, a, reach(g1, s, v));
    } else {
        lemma_only_parents_none(g);
    }
}

/// An adopting walk that comes to a node gives parents only to that node
/// and to nodes that its value reaches.
pub proof fn lemma_adopt_node(g: Graph, p: u32, inner: SchemaView, id: u32)
    requires
        typed(g, SchemaView::Node(Box::new(inner)), ValueView::Node(id)),
        within(g, p, SchemaView::Node(Box::new(inner)), ValueView::Node(id)),
    ensures
        adopts(
            g,
            walked(g, Pass::Adopt(p), SchemaView::Node(Box::new(inner)), ValueView::Node(id)),
            reach(g, SchemaView::Node(Box::new(inner)), ValueView::Node(id)),
        ),
    decreases inner, 3nat, 0nat,
{
    let content = g[id].value;
    let all = reach(g, SchemaView::Node(Box::new(inner)), ValueView::Node(id));
    if id == p {
        lemma_only_parents_none(g);
        assert(only_parents(g, g, all)) by {
            assert forall|x: u32, q: u32| #[trigger] parent_ok(g, g, x, q) by {}
        }
    } else {
        let g0 = with_parent(g, id, p);
        assert(all.contains(id));
        assert(only_parents(g, g0, set![id])) by {
            assert forall|x: u32| g.contains_key(x) implies #[trigger] alike_but_parents(
                g,
                g0,
                x,
            ) by {}
            assert forall|x: u32| g.contains_key(x) && !set![id].contains(x) implies #[trigger] untouched(
                g,
                g0,
                x,
            ) by {}
            assert forall|x: u32, q: u32| #[trigger] parent_ok(g, g0, x, q) by {}
        }
        lemma_only_parents(g, g0, set![id]);
        lemma_typed_same(g, g0, inner, content);
        lemma_reach_same(g, g0, inner, content);
        assert(alike_but_parents(g, g0, id));
        lemma_adopt(g0, id, inner, content);
        let h = walked(g0, Pass::Adopt(id), inner, content);
        lemma_only_parents_twice(g, g0, h, set![id], reach(g0, inner, content));
        assert(set![id].union(reach(g, inner, content)) =~= all);
    }
}

/// An adopting walk gives parents only to nodes that the value reaches, and
/// each parent that it gives is a node whose value reaches the node.
pub proof fn lemma_adopt(g: Graph, p: u32, s: SchemaView, v: ValueView)
    requires
        typed(g, s, v),
        within(g, p, s, v),
    ensures
        adopts(g, walked(g, Pass::Adopt(p), s, v), reach(g, s, v)),
    decreases s, 1nat, 0nat,
{
    match s {
        SchemaView::List(e) => {
            lemma_typed_list(g, *e, v->List_0);
            lemma_adopt_items(g, p, *e, v->List_0, v->List_0.len());
        },
        SchemaView::Dict(k, w) => {
            lemma_typed_dict(g, *k, *w, v->Dict_0);
            lemma_adopt_entries(g, p, s, v->Dict_0, v->Dict_0.len());
        },
        SchemaView::Maybe(e) => {
            match v->Maybe_0 {
                Some(inner) => {
                    lemma_adopt(g, p, *e, *inner);
                },
                None => {
                    lemma_only_parents_none(g);
                },
            }
        },
        SchemaView::Record(fields) => {
            lemma_typed_row(g, fields, v->Record_0);
            lemma_adopt_row(g, p, fields, v->Record_0, fields.len());
        },
        SchemaView::Choice(variants) => {
            let fields = variants[v->Choice_0 as int];
            lemma_typed_row(g, fields, v->Choice_1);
            lemma_adopt_row(g, p, fields, v->Choice_1, fields.len());
        },
        SchemaView::Node(inner) => {
            lemma_adopt_node(g, p, *inner, v->Node_0);
        },
        _ => {
            lemma_only_parents_none(g);
        },
    }
}

/// A releasing walk over the first `n` items of a list takes parents only
/// from nodes that the items reach.
pub proof fn lemma_release_items(g: Graph, p: u32, e: SchemaView, items: Seq<ValueView>, n: nat)
    requires
        n <= items.len(),
    ensures
        only_parents(
            g,
            walked_items(g, Pass::Release(p), e, items, n),
            reach_items(g, e, items, n),
        ),
    decreases e, 3nat, n,
{
    if n > 0 {
        let g1 = walked_items(g, Pass::Release(p), e, items, (n - 1) as nat);
        let a = reach_items(g, e, items, (n - 1) as nat);
        lemma_release_items(g, p, e, items, (n - 1) as nat);
        lemma_only_parents(g, g1, a);
        lemma_reach_same(g, g1, e, items[n - 1]);
        lemma_release(g1, p, e, items[n - 1]);
        let g2 = walked(g1, Pass::Release(p), e, items[n - 1]);
        lemma_only_parents_twice(g, g1, g2, a, reach(g1, e, items[n - 1]));
    } else {
        lemma_only_parents_none(g);
    }
}

/// A releasing walk over the first `n` entries of a mapping takes parents
/// only from nodes that the entries reach.
pub proof fn lemma_release_entries(
    g: Graph,
    p: u32,
    s: SchemaView,
    entries: Seq<(ValueView, ValueView)>,
    n: nat,
)
    requires
        n <= entries.len(),
    ensures
        only_parents(
            g,
            walked_entries(g, Pass::Release(p), s, entries, n),
            reach_entries(g, s, entries, n),
        ),
    decreases s, 0nat, n,
{
    match s {
        SchemaView::Dict(k, w) => {
            if n > 0 {
                let g1 = walked_entries(g, Pass::Release(p), s, entries, (n - 1) as nat);
                let a = reach_entries(g, s, entries, (n - 1) as nat);
                lemma_release_entries(g, p, s, entries, (n - 1) as nat);
                lemma_only_parents(g, g1, a);
                lemma_reach_same(g, g1, *k, entries[n - 1].0);
                let b = reach(g1, *k, entries[n - 1].0);
                lemma_release(g1, p, *k, entries[n - 1].0);
                let g2 = walked(g1, Pass::Release(p), *k, entries[n - 1].0);
                lemma_only_parents_twice(g, g1, g2, a, b);
                lemma_only_parents(g, g2, a.union(b));
                lemma_reach_same(g, g2, *w, entries[n - 1].1);
                let c = reach(g2, *w, entries[n - 1].1);
                lemma_release(g2, p, *w, entries[n - 1].1);
                let g3 = walked(g2, Pass::Release(p), *w, entries[n - 1].1);
                lemma_only_parents_twice(g, g2, g3, a.union(b), c);
                assert(a.union(b).union(c) =~= a.union(b.union(c)));
            } else {
                lemma_only_parents_none(g);
            }
        },
        _ => {
            lemma_only_parents_none(g);
        },
    }
}

/// A releasing walk over the first `n` members of a row takes parents only
/// from nodes that the members reach.
pub proof fn lemma_release_row(
    g: Graph,
    p: u32,
    fields: Seq<FieldView>,
    members: Seq<ValueView>,
    n: nat,
)
    ensures
        only_parents(
            g,
            walked_row(g, Pass::Release(p), fields, members, n),
            reach_row(g, fields, members, n),
        ),
    decreases fields, 0nat, n,
{
    if n > 0 && n <= fields.len() {
        let g1 = walked_row(g, Pass::Release(p), fields, members, (n - 1) as nat);
        let a = reach_row(g, fields, members, (n - 1) as nat);
        lemma_release_row(g, p, fields, members, (n - 1) as nat);
        lemma_only_parents(g, g1, a);
        let s = fields[n - 1].ty;
        let v = members[n - 1];
        lemma_reach_same(g, g1, s, v);
        lemma_release(g1, p, s, v);
        let g2 = walked(g1, Pass::Release(p), s, v);
        lemma_only_parents_twice(g, g1, g2, a, reach(g1, s, v));
    } else {
        lemma_only_parents_none(g);
    }
}

/// A releasing walk takes parents only from nodes that the value reaches,
/// and gives none.
pub proof fn lemma_release(g: Graph, p: u32, s: SchemaView, v: ValueView)
    ensures
        only_parents(g, walked(g, Pass::Release(p), s, v), reach(g, s, v)),
    decreases s, 1nat, 0nat,
{
    match (s, v) {
        (SchemaView::List(e), ValueView::List(items)) => {
            lemma_release_items(g, p, *e, items, items.len());
        },
        (SchemaView::Dict(_, _), ValueView::Dict(entries)) => {
            lemma_release_entries(g, p, s, entries, entries.len());
        },
        (SchemaView::Maybe(e), ValueView::Maybe(Some(inner))) => {
            lemma_release(g, p, *e, *inner);
        },
        (SchemaView::Record(fields), ValueView::Record(members)) => {
            if members.len() == fields.len() {
                lemma_release_row(g, p, fields, members, fields.len());
            } else {
                lemma_only_parents_none(g);
                assert forall|x: u32, q: u32| #[trigger] parent_ok(g, g, x, q) by {}
            }
        },
        (SchemaView::Choice(variants), ValueView::Choice(tag, members)) => {
            if tag < variants.len() && members.len() == variants[tag as int].len() {
                lemma_release_row(g, p, variants[tag as int], members, members.len());
            } else {
                lemma_only_parents_none(g);
                assert forall|x: u32, q: u32| #[trigger] parent_ok(g, g, x, q) by {}
            }
        },
        (SchemaView::Node(inner), ValueView::Node(id)) => {
            let h = walked(g, Pass::Release(p), s, v);
            assert forall|x: u32| g.contains_key(x) implies #[trigger] alike_but_parents(g, h, x) by {}
            assert forall|x: u32| g.contains_key(x) && !reach(g, s, v).contains(x) implies #[trigger] untouched(
                g,
                h,
                x,
            ) by {}
            assert forall|x: u32, q: u32| #[trigger] parent_ok(g, h, x, q) by {}
        },
        _ => {
            lemma_only_parents_none(g);
        },
    }
}

/// After adoption, every node is settled, where every node but what the
/// adopting node's value reaches was settled before: the nodes that the
/// value reaches hear what the adopting node passes on.
///
/// Each node's value has the node's shape, and a node is a parent of
/// another only where its value reaches the other.
pub proof fn lemma_adopted_settles(g: Graph, id: u32)
    requires
        well_typed(g),
        edges_within(g),
        g.contains_key(id),
        forall|x: u32|
            g.contains_key(x) && !reach(g, g[id].schema, g[id].value).contains(x)
                ==> #[trigger] at_rest(g, x),
    ensures
        settled(crate::node::adopted(g, id)),
        well_typed(crate::node::adopted(g, id)),
        edges_within(crate::node::adopted(g, id)),
        same_values(g, crate::node::adopted(g, id)),
{
    let s = g[id].schema;
    let v = g[id].value;
    let r = reach(g, s, v);
    let g1 = below(g, Pass::Adopt(id), id);
    assert(typed(g, s, v));
    lemma_adopt(g, id, s, v);
    lemma_only_parents(g, g1, r);
    assert(alike_but_parents(g, g1, id));
    lemma_reach_same(g, g1, s, v);
    assert forall|x: u32|
        g1.contains_key(x) && !reach(g1, g1[id].schema, g1[id].value).contains(
            x,
        ) implies #[trigger] at_rest(g1, x) by {
        assert(g.contains_key(x));
        assert(untouched(g, g1, x));
        assert(at_rest(g, x));
        lemma_due_kept(g, g1, r, x);
    }
    lemma_refresh_below_settles(g1, id);
    let g2 = below(g1, Pass::Refresh, id);
    assert forall|x: u32| #[trigger] g.contains_key(x) implies g[x].schema == g2[x].schema
        && g[x].value == g2[x].value by {
        assert(g1.contains_key(x));
    }
    assert forall|x: u32| #[trigger] g.contains_key(x) <==> g2.contains_key(x) by {
        assert(g.contains_key(x) <==> g1.contains_key(x));
        assert(g1.contains_key(x) <==> g2.contains_key(x));
    }
}

/// Adoption keeps a settled graph settled.
pub proof fn lemma_adopted(g: Graph, id: u32)
    requires
        settled(g),
        well_typed(g),
        edges_within(g),
        g.contains_key(id),
    ensures
        settled(crate::node::adopted(g, id)),
        well_typed(crate::node::adopted(g, id)),
        edges_within(crate::node::adopted(g, id)),
{
    lemma_adopted_settles(g, id);
}

/// Release keeps a settled graph settled: the nodes that the releasing
/// node's value refers to no longer have it for a parent, and hear only of
/// what is due to them without it.
pub proof fn lemma_released(g: Graph, id: u32)
    requires
        settled(g),
        well_typed(g),
        edges_within(g),
        g.contains_key(id),
    ensures
        settled(crate::node::released(g, id)),
        well_typed(crate::node::released(g, id)),
        edges_within(crate::node::released(g, id)),
{
    let s = g[id].schema;
    let v = g[id].value;
    let r = reach(g, s, v);
    let g1 = below(g, Pass::Release(id), id);
    lemma_release(g, id, s, v);
    lemma_only_parents(g, g1, r);
    assert(alike_but_parents(g, g1, id));
    lemma_reach_same(g, g1, s, v);
    assert forall|x: u32|
        g1.contains_key(x) && !reach(g1, g1[id].schema, g1[id].value).contains(
            x,
        ) implies #[trigger] at_rest(g1, x) by {
        assert(g.contains_key(x));
        assert(untouched(g, g1, x));
        assert(at_rest(g, x));
        lemma_due_kept(g, g1, r, x);
    }
    lemma_refresh_below_settles(g1, id);
}

/// The nodes after the node `id` has been made the root of the connection
/// `conn`.
pub open spec fn with_root(g: Graph, id: u32, conn: usize) -> Graph {
    if g.contains_key(id) {
        g.insert(id, NodeView { root: Some(conn), conns: g[id].conns.insert(conn), ..g[id] })
    } else {
        g
    }
}

/// Making a node that was no root the root of a connection, and adopting
/// what its value refers to, keeps a settled graph settled: the node and
/// every node that its value reaches hear of the connection.
pub proof fn lemma_rooted(g: Graph, id: u32, conn: usize)
    requires
        settled(g),
        well_typed(g),
        edges_within(g),
        g.contains_key(id),
        g[id].root is None,
    ensures
        settled(crate::node::adopted(with_root(g, id, conn), id)),
        well_typed(crate::node::adopted(with_root(g, id, conn), id)),
        edges_within(crate::node::adopted(with_root(g, id, conn), id)),
        crate::node::adopted(with_root(g, id, conn), id)[id].conns.contains(conn),
{
    let g1 = with_root(g, id, conn);
    assert(same_values(g, g1));
    assert forall|x: u32| #[trigger] g1.contains_key(x) implies typed(
        g1,
        g1[x].schema,
        g1[x].value,
    ) by {
        assert(g.contains_key(x));
        lemma_typed_same(g, g1, g[x].schema, g[x].value);
    }
    assert forall|d: u32, q: u32| #[trigger] edge_ok(g1, d, q) by {
        if g1.contains_key(d) && g1.contains_key(q) && g1[d].parents.contains(q) {
            assert(edge_ok(g, d, q));
            lemma_reach_same(g, g1, g[q].schema, g[q].value);
        }
    }
    lemma_no_cycle(g, id);
    lemma_reach_same(g, g1, g[id].schema, g[id].value);
    assert forall|x: u32|
        g1.contains_key(x) && !reach(g1, g1[id].schema, g1[id].value).contains(
            x,
        ) implies #[trigger] at_rest(g1, x) by {
        assert(at_rest(g, x));
        assert(edge_ok(g, x, id));
        assert(!g[x].parents.contains(id));
        let parents = g[x].parents;
        assert forall|c: usize| inherited(g1, parents).contains(c) <==> inherited(
            g,
            parents,
        ).contains(c) by {
            if inherited(g1, parents).contains(c) {
                let q = choose|q: u32| parents.contains(q) && #[trigger] lent(g1, q).contains(c);
                assert(q != id);
                assert(lent(g, q).contains(c));
            }
            if inherited(g, parents).contains(c) {
                let q = choose|q: u32| parents.contains(q) && #[trigger] lent(g, q).contains(c);
                assert(q != id);
                assert(lent(g1, q).contains(c));
            }
        }
        assert(inherited(g1, parents) =~= inherited(g, parents));
        if x == id {
            assert(due(g1, id) =~= due(g, id).insert(conn));
        }
    }
    lemma_adopted_settles(g1, id);
    let h = crate::node::adopted(g1, id);
    assert(h.contains_key(id));
    assert(at_rest(h, id));
    lemma_only_root(g1, id);
}

/// Adoption leaves the adopting node what it is the root of.
pub proof fn lemma_only_root(g: Graph, id: u32)
    requires
        well_typed(g),
        edges_within(g),
        g.contains_key(id),
    ensures
        crate::node::adopted(g, id).contains_key(id),
        crate::node::adopted(g, id)[id].root == g[id].root,
{
    let s = g[id].schema;
    let v = g[id].value;
    let g1 = below(g, Pass::Adopt(id), id);
    assert(typed(g, s, v));
    lemma_adopt(g, id, s, v);
    assert(alike_but_parents(g, g1, id));
    let g2 = below(g1, Pass::Refresh, id);
    lemma_only_parents(g, g1, reach(g, s, v));
    assert(g1.contains_key(id));
    assert(typed(g1, g1[id].schema, g1[id].value));
    lemma_refresh(g1, g1[id].schema, g1[id].value);
    assert(alike(g1, g2, id));
}

/// The ids of the nodes that `v`, a value of the shape `s`, refers to
/// itself, not through other nodes.
pub open spec fn direct(s: SchemaView, v: ValueView) -> Set<u32>
    decreases s, 1nat, 0nat,
{
    match (s, v) {
        (SchemaView::List(e), ValueView::List(items)) => direct_items(*e, items, items.len()),
        (SchemaView::Dict(_, _), ValueView::Dict(entries)) => direct_entries(
            s,
            entries,
            entries.len(),
        ),
        (SchemaView::Maybe(e), ValueView::Maybe(Some(inner))) => direct(*e, *inner),
        (SchemaView::Record(fields), ValueView::Record(members)) => direct_row(
            fields,
            members,
            fields.len(),
        ),
        (SchemaView::Choice(variants), ValueView::Choice(tag, members)) => if tag
            < variants.len() {
            direct_row(variants[tag as int], members, variants[tag as int].len())
        } else {
            Set::empty()
        },
        (SchemaView::Node(_), ValueView::Node(id)) => set![id],
        _ => Set::empty(),
    }
}

/// The ids that the first `n` of `items` refer to themselves.
pub open spec fn direct_items(e: SchemaView, items: Seq<ValueView>, n: nat) -> Set<u32>
    decreases e, 2nat, n,
{
    if n == 0 {
        Set::empty()
    } else {
        direct_items(e, items, (n - 1) as nat).union(direct(e, items[n - 1]))
    }
}

/// The ids that the first `n` of `entries` refer to themselves.
pub open spec fn direct_entries(s: SchemaView, entries: Seq<(ValueView, ValueView)>, n: nat) -> Set<
    u32,
>
    decreases s, 0nat, n,
{
    match s {
        SchemaView::Dict(k, w) => if n == 0 {
            Set::empty()
        } else {
            direct_entries(s, entries, (n - 1) as nat).union(
                direct(*k, entries[n - 1].0).union(direct(*w, entries[n - 1].1)),
            )
        },
        _ => Set::empty(),
    }
}

/// The ids that the first `n` of `members` refer to themselves.
pub open spec fn direct_row(fields: Seq<FieldView>, members: Seq<ValueView>, n: nat) -> Set<u32>
    decreases fields, 0nat, n,
{
    if n == 0 || n > fields.len() {
        Set::empty()
    } else {
        direct_row(fields, members, (n - 1) as nat).union(direct(fields[n - 1].ty, members[n - 1]))
    }
}

/// Whether `p` is a parent of the node `c`, unless `c` is not there or is
/// `p` itself.
pub open spec fn linked(g: Graph, p: u32, c: u32) -> bool {
    g.contains_key(c) && c != p ==> g[c].parents.contains(p)
}

/// Whether `p` is a parent of each of the nodes `ids`.
pub open spec fn edges_to(g: Graph, p: u32, ids: Set<u32>) -> bool {
    forall|c: u32| ids.contains(c) ==> #[trigger] linked(g, p, c)
}

/// Whether the node `p` is a parent of every node that its value refers to
/// itself.
pub open spec fn complete_at(g: Graph, p: u32) -> bool {
    g.contains_key(p) ==> edges_to(g, p, direct(g[p].schema, g[p].value))
}

/// Whether each of the nodes `ids` is a parent of every node that its value
/// refers to itself.
pub open spec fn complete_on(g: Graph, ids: Set<u32>) -> bool {
    forall|p: u32| ids.contains(p) ==> #[trigger] complete_at(g, p)
}

/// Whether the node `x` has in `h` every parent that it has in `g`.
pub open spec fn keeps_parents(g: Graph, h: Graph, x: u32) -> bool {
    g[x].parents.subset_of(h[x].parents)
}

/// Whether `h` holds the nodes of `g` with the same values and with every
/// parent that they have in `g`.
pub open spec fn grows(g: Graph, h: Graph) -> bool {
    &&& same_values(g, h)
    &&& forall|x: u32| g.contains_key(x) ==> #[trigger] keeps_parents(g, h, x)
}

/// What holds of the parents in a graph holds in a graph with more parents.
pub proof fn lemma_grows(g: Graph, h: Graph, p: u32, ids: Set<u32>, done: Set<u32>)
    requires
        grows(g, h),
    ensures
        edges_to(g, p, ids) ==> edges_to(h, p, ids),
        complete_on(g, done) ==> complete_on(h, done),
{
    if edges_to(g, p, ids) {
        assert forall|c: u32| ids.contains(c) implies #[trigger] linked(h, p, c) by {
            assert(linked(g, p, c));
            if h.contains_key(c) {
                assert(g.contains_key(c));
                assert(keeps_parents(g, h, c));
            }
        }
    }
    if complete_on(g, done) {
        assert forall|q: u32| done.contains(q) implies #[trigger] complete_at(h, q) by {
            assert(complete_at(g, q));
            if h.contains_key(q) {
                assert(g.contains_key(q));
                let ids2 = direct(g[q].schema, g[q].value);
                assert forall|c: u32| ids2.contains(c) implies #[trigger] linked(h, q, c) by {
                    assert(linked(g, q, c));
                    if h.contains_key(c) {
                        assert(g.contains_key(c));
                        assert(keeps_parents(g, h, c));
                    }
                }
            }
        }
    }
}

/// More parents, and then more, are more parents.
pub proof fn lemma_grows_twice(g: Graph, g1: Graph, g2: Graph)
    requires
        grows(g, g1),
        grows(g1, g2),
    ensures
        grows(g, g2),
{
    assert forall|x: u32| g.contains_key(x) implies #[trigger] keeps_parents(g, g2, x) by {
        assert(keeps_parents(g, g1, x));
        assert(g1.contains_key(x));
        assert(keeps_parents(g1, g2, x));
    }
    assert forall|id: u32| #[trigger] g.contains_key(id) <==> g2.contains_key(id) by {
        assert(g.contains_key(id) <==> g1.contains_key(id));
        assert(g1.contains_key(id) <==> g2.contains_key(id));
    }
    assert forall|id: u32| #[trigger] g.contains_key(id) implies g[id].schema == g2[id].schema
        && g[id].value == g2[id].value by {
        assert(g1.contains_key(id));
    }
}

/// The law of `lemma_adopt_links`, as a predicate: after the walk the
/// adopting node is a parent of what the value refers to itself, every node
/// that the value reaches is a parent of what its own value refers to
/// itself, and no node has lost a parent.
pub open spec fn links(g: Graph, h: Graph, p: u32, own: Set<u32>, reached: Set<u32>) -> bool {
    grows(g, h) && edges_to(h, p, own) && complete_on(h, reached)
}

/// An adopting walk over the first `n` items of a list links what they
/// reach.
pub proof fn lemma_adopt_links_items(
    g: Graph,
    p: u32,
    e: SchemaView,
    items: Seq<ValueView>,
    n: nat,
)
    requires
        n <= items.len(),
        forall|i: int| 0 <= i < items.len() ==> typed(g, e, #[trigger] items[i]),
        !reach_items(g, e, items, n).contains(p),
    ensures
        links(
            g,
            walked_items(g, Pass::Adopt(p), e, items, n),
            p,
            direct_items(e, items, n),
            reach_items(g, e, items, n),
        ),
    decreases e, 3nat, n,
{
    if n > 0 {
        let g1 = walked_items(g, Pass::Adopt(p), e, items, (n - 1) as nat);
        lemma_adopt_links_items(g, p, e, items, (n - 1) as nat);
        assert(typed(g, e, items[n - 1]));
        lemma_typed_same(g, g1, e, items[n - 1]);
        lemma_reach_same(g, g1, e, items[n - 1]);
        lemma_adopt_links(g1, p, e, items[n - 1]);
        let g2 = walked(g1, Pass::Adopt(p), e, items[n - 1]);
        lemma_grows_twice(g, g1, g2);
        lemma_grows(
            g1,
            g2,
            p,
            direct_items(e, items, (n - 1) as nat),
            reach_items(g, e, items, (n - 1) as nat),
        );
    } else {
        assert(grows(g, g)) by {
            assert forall|x: u32| g.contains_key(x) implies #[trigger] keeps_parents(g, g, x) by {}
        }
    }
}

/// An adopting walk over the first `n` entries of a mapping links what they
/// reach.
pub proof fn lemma_adopt_links_entries(
    g: Graph,
    p: u32,
    s: SchemaView,
    entries: Seq<(ValueView, ValueView)>,
    n: nat,
)
    requires
        s is Dict,
        n <= entries.len(),
        forall|i: int|
            0 <= i < entries.len() ==> typed(g, *s->Dict_0, (#[trigger] entries[i]).0) && typed(
                g,
                *s->Dict_1,
                entries[i].1,
            ),
        !reach_entries(g, s, entries, n).contains(p),
    ensures
        links(
            g,
            walked_entries(g, Pass::Adopt(p), s, entries, n),
            p,
            direct_entries(s, entries, n),
            reach_entries(g, s, entries, n),
        ),
    decreases s, 0nat, n,
{
    if n > 0 {
        let k = *s->Dict_0;
        let w = *s->Dict_1;
        let g1 = walked_entries(g, Pass::Adopt(p), s, entries, (n - 1) as nat);
        lemma_adopt_links_entries(g, p, s, entries, (n - 1) as nat);
        assert(typed(g, k, entries[n - 1].0) && typed(g, w, entries[n - 1].1));
        lemma_typed_same(g, g1, k, entries[n - 1].0);
        lemma_reach_same(g, g1, k, entries[n - 1].0);
        lemma_adopt_links(g1, p, k, entries[n - 1].0);
        let g2 = walked(g1, Pass::Adopt(p), k, entries[n - 1].0);
        lemma_grows_twice(g, g1, g2);
        lemma_grows(
            g1,
            g2,
            p,
            direct_entries(s, entries, (n - 1) as nat),
            reach_entries(g, s, entries, (n - 1) as nat),
        );
        lemma_typed_same(g, g2, w, entries[n - 1].1);
        lemma_reach_same(g, g2, w, entries[n - 1].1);
        lemma_adopt_links(g2, p, w, entries[n - 1].1);
        let g3 = walked(g2, Pass::Adopt(p), w, entries[n - 1].1);
        lemma_grows_twice(g, g2, g3);
        lemma_grows(
            g2,
            g3,
            p,
            direct_entries(s, entries, (n - 1) as nat).union(direct(k, entries[n - 1].0)),
            reach_entries(g, s, entries, (n - 1) as nat).union(reach(g, k, entries[n - 1].0)),
        );
    } else {
        assert(grows(g, g)) by {
            assert forall|x: u32| g.contains_key(x) implies #[trigger] keeps_parents(g, g, x) by {}
        }
    }
}

/// An adopting walk over the first `n` members of a row links what they
/// reach.
pub proof fn lemma_adopt_links_row(
    g: Graph,
    p: u32,
    fields: Seq<FieldView>,
    members: Seq<ValueView>,
    n: nat,
)
    requires
        n <= fields.len(),
        typed_row(g, fields, members),
        !reach_row(g, fields, members, n).contains(p),
    ensures
        links(
            g,
            walked_row(g, Pass::Adopt(p), fields, members, n),
            p,
            direct_row(fields, members, n),
            reach_row(g, fields, members, n),
        ),
    decreases fields, 0nat, n,
{
    lemma_typed_row(g, fields, members);
    if n > 0 {
        let g1 = walked_row(g, Pass::Adopt(p), fields, members, (n - 1) as nat);
        lemma_adopt_links_row(g, p, fields, members, (n - 1) as nat);
        let s = fields[n - 1].ty;
        let v = members[n - 1];
        assert(typed(g, s, v));
        lemma_typed_same(g, g1, s, v);
        lemma_reach_same(g, g1, s, v);
        lemma_adopt_links(g1, p, s, v);
        let g2 = walked(g1, Pass::Adopt(p), s, v);
        lemma_grows_twice(g, g1, g2);
        lemma_grows(
            g1,
            g2,
            p,
            direct_row(fields, members, (n - 1) as nat),
            reach_row(g, fields, members, (n - 1) as nat),
        );
    } else {
        assert(grows(g, g)) by {
            assert forall|x: u32| g.contains_key(x) implies #[trigger] keeps_parents(g, g, x) by {}
        }
    }
}

/// An adopting walk that comes to a node links the node and what its value
/// reaches.
pub proof fn lemma_adopt_links_node(g: Graph, p: u32, inner: SchemaView, id: u32)
    requires
        typed(g, SchemaView::Node(Box::new(inner)), ValueView::Node(id)),
        id != p,
        !reach(g, inner, g[id].value).contains(p),
    ensures
        links(
            g,
            walked(g, Pass::Adopt(p), SchemaView::Node(Box::new(inner)), ValueView::Node(id)),
            p,
            set![id],
            reach(g, SchemaView::Node(Box::new(inner)), ValueView::Node(id)),
        ),
    decreases inner, 3nat, 0nat,
{
    let content = g[id].value;
    let g0 = with_parent(g, id, p);
    assert(grows(g, g0)) by {
        assert forall|x: u32| g.contains_key(x) implies #[trigger] keeps_parents(g, g0, x) by {}
    }
    lemma_typed_same(g, g0, inner, content);
    lemma_reach_same(g, g0, inner, content);
    lemma_no_cycle(g, id);
    lemma_adopt_links(g0, id, inner, content);
    let h = walked(g0, Pass::Adopt(id), inner, content);
    lemma_grows_twice(g, g0, h);
    assert(edges_to(h, p, set![id])) by {
        assert forall|c: u32| set![id].contains(c) implies #[trigger] linked(h, p, c) by {
            assert(keeps_parents(g0, h, id));
            assert(g0[id].parents.contains(p));
        }
    }
    assert(complete_on(
        h,
        reach(g, SchemaView::Node(Box::new(inner)), ValueView::Node(id)),
    )) by {
        assert forall|q: u32|
            reach(
                g,
                SchemaView::Node(Box::new(inner)),
                ValueView::Node(id),
            ).contains(q) implies #[trigger] complete_at(h, q) by {
            if q == id {
                assert(h.contains_key(id));
                assert(h[id].schema == inner && h[id].value == content);
            }
        }
    }
}

/// An adopting walk links what the value reaches: afterwards the adopting
/// node is a parent of every node that the value refers to itself, and each
/// node that the value reaches is a parent of every node that its own value
/// refers to itself.
pub proof fn lemma_adopt_links(g: Graph, p: u32, s: SchemaView, v: ValueView)
    requires
        typed(g, s, v),
        !reach(g, s, v).contains(p),
    ensures
        links(g, walked(g, Pass::Adopt(p), s, v), p, direct(s, v), reach(g, s, v)),
    decreases s, 1nat, 0nat,
{
    match s {
        SchemaView::List(e) => {
            lemma_typed_list(g, *e, v->List_0);
            lemma_adopt_links_items(g, p, *e, v->List_0, v->List_0.len());
        },
        SchemaView::Dict(k, w) => {
            lemma_typed_dict(g, *k, *w, v->Dict_0);
            lemma_adopt_links_entries(g, p, s, v->Dict_0, v->Dict_0.len());
        },
        SchemaView::Maybe(e) => {
            match v->Maybe_0 {
                Some(inner) => {
                    lemma_adopt_links(g, p, *e, *inner);
                },
                None => {
                    assert(grows(g, g)) by {
                        assert forall|x: u32| g.contains_key(x) implies #[trigger] keeps_parents(
                            g,
                            g,
                            x,
                        ) by {}
                    }
                },
            }
        },
        SchemaView::Record(fields) => {
            lemma_typed_row(g, fields, v->Record_0);
            lemma_adopt_links_row(g, p, fields, v->Record_0, fields.len());
        },
        SchemaView::Choice(variants) => {
            let fields = variants[v->Choice_0 as int];
            lemma_typed_row(g, fields, v->Choice_1);
            lemma_adopt_links_row(g, p, fields, v->Choice_1, fields.len());
        },
        SchemaView::Node(inner) => {
            lemma_adopt_links_node(g, p, *inner, v->Node_0);
        },
        _ => {
            assert(grows(g, g)) by {
                assert forall|x: u32| g.contains_key(x) implies #[trigger] keeps_parents(g, g, x) by {}
            }
        },
    }
}

/// Whether each of the nodes `ids` hears of the connection `conn`.
pub open spec fn all_hear(g: Graph, ids: Set<u32>, conn: usize) -> bool {
    forall|x: u32| ids.contains(x) ==> (#[trigger] g[x]).conns.contains(conn)
}

/// What a node passes on reaches the nodes that the first `n` items of a
/// list in its value reach.
pub proof fn lemma_spread_items(
    g: Graph,
    conn: usize,
    p: u32,
    e: SchemaView,
    items: Seq<ValueView>,
    n: nat,
)
    requires
        settled(g),
        n <= items.len(),
        forall|i: int| 0 <= i < items.len() ==> typed(g, e, #[trigger] items[i]),
        lent(g, p).contains(conn),
        edges_to(g, p, direct_items(e, items, n)),
        complete_on(g, reach_items(g, e, items, n)),
        !reach_items(g, e, items, n).contains(p),
    ensures
        all_hear(g, reach_items(g, e, items, n), conn),
    decreases e, 3nat, n,
{
    if n > 0 {
        assert(typed(g, e, items[n - 1]));
        lemma_spread_items(g, conn, p, e, items, (n - 1) as nat);
        lemma_spread(g, conn, p, e, items[n - 1]);
    }
}

/// What a node passes on reaches the nodes that the first `n` entries of a
/// mapping in its value reach.
pub proof fn lemma_spread_entries(
    g: Graph,
    conn: usize,
    p: u32,
    s: SchemaView,
    entries: Seq<(ValueView, ValueView)>,
    n: nat,
)
    requires
        settled(g),
        s is Dict,
        n <= entries.len(),
        forall|i: int|
            0 <= i < entries.len() ==> typed(g, *s->Dict_0, (#[trigger] entries[i]).0) && typed(
                g,
                *s->Dict_1,
                entries[i].1,
            ),
        lent(g, p).contains(conn),
        edges_to(g, p, direct_entries(s, entries, n)),
        complete_on(g, reach_entries(g, s, entries, n)),
        !reach_entries(g, s, entries, n).contains(p),
    ensures
        all_hear(g, reach_entries(g, s, entries, n), conn),
    decreases s, 0nat, n,
{
    if n > 0 {
        assert(typed(g, *s->Dict_0, entries[n - 1].0) && typed(g, *s->Dict_1, entries[n - 1].1));
        lemma_spread_entries(g, conn, p, s, entries, (n - 1) as nat);
        lemma_spread(g, conn, p, *s->Dict_0, entries[n - 1].0);
        lemma_spread(g, conn, p, *s->Dict_1, entries[n - 1].1);
    }
}

/// What a node passes on reaches the nodes that the first `n` members of a
/// row in its value reach.
pub proof fn lemma_spread_row(
    g: Graph,
    conn: usize,
    p: u32,
    fields: Seq<FieldView>,
    members: Seq<ValueView>,
    n: nat,
)
    requires
        settled(g),
        n <= fields.len(),
        typed_row(g, fields, members),
        lent(g, p).contains(conn),
        edges_to(g, p, direct_row(fields, members, n)),
        complete_on(g, reach_row(g, fields, members, n)),
        !reach_row(g, fields, members, n).contains(p),
    ensures
        all_hear(g, reach_row(g, fields, members, n), conn),
    decreases fields, 0nat, n,
{
    lemma_typed_row(g, fields, members);
    if n > 0 {
        assert(typed(g, fields[n - 1].ty, members[n - 1]));
        lemma_spread_row(g, conn, p, fields, members, (n - 1) as nat);
        lemma_spread(g, conn, p, fields[n - 1].ty, members[n - 1]);
    }
}

/// What a node passes on reaches a node that its value refers to, and the
/// nodes that the value of that node reaches.
pub proof fn lemma_spread_node(g: Graph, conn: usize, p: u32, inner: SchemaView, id: u32)
    requires
        settled(g),
        typed(g, SchemaView::Node(Box::new(inner)), ValueView::Node(id)),
        lent(g, p).contains(conn),
        linked(g, p, id),
        complete_on(g, reach(g, SchemaView::Node(Box::new(inner)), ValueView::Node(id))),
        !reach(g, SchemaView::Node(Box::new(inner)), ValueView::Node(id)).contains(p),
    ensures
        all_hear(g, reach(g, SchemaView::Node(Box::new(inner)), ValueView::Node(id)), conn),
    decreases inner, 3nat, 0nat,
{
    let all = reach(g, SchemaView::Node(Box::new(inner)), ValueView::Node(id));
    assert(all.contains(id));
    lemma_heard(g, id, p);
    assert(g[id].conns.contains(conn));
    assert(complete_at(g, id));
    lemma_no_cycle(g, id);
    lemma_spread(g, conn, id, inner, g[id].value);
}

/// What a node passes on reaches every node that a part of its value
/// reaches, in a settled graph in which that node and the nodes reached are
/// parents of what their values refer to.
pub proof fn lemma_spread(g: Graph, conn: usize, p: u32, s: SchemaView, v: ValueView)
    requires
        settled(g),
        typed(g, s, v),
        lent(g, p).contains(conn),
        edges_to(g, p, direct(s, v)),
        complete_on(g, reach(g, s, v)),
        !reach(g, s, v).contains(p),
    ensures
        all_hear(g, reach(g, s, v), conn),
    decreases s, 1nat, 0nat,
{
    match s {
        SchemaView::List(e) => {
            lemma_typed_list(g, *e, v->List_0);
            lemma_spread_items(g, conn, p, *e, v->List_0, v->List_0.len());
        },
        SchemaView::Dict(k, w) => {
            lemma_typed_dict(g, *k, *w, v->Dict_0);
            lemma_spread_entries(g, conn, p, s, v->Dict_0, v->Dict_0.len());
        },
        SchemaView::Maybe(e) => {
            match v->Maybe_0 {
                Some(inner) => {
                    lemma_spread(g, conn, p, *e, *inner);
                },
                None => {},
            }
        },
        SchemaView::Record(fields) => {
            lemma_typed_row(g, fields, v->Record_0);
            lemma_spread_row(g, conn, p, fields, v->Record_0, fields.len());
        },
        SchemaView::Choice(variants) => {
            let fields = variants[v->Choice_0 as int];
            lemma_typed_row(g, fields, v->Choice_1);
            lemma_spread_row(g, conn, p, fields, v->Choice_1, fields.len());
        },
        SchemaView::Node(inner) => {
            assert(direct(s, v).contains(v->Node_0));
            assert(linked(g, p, v->Node_0));
            lemma_spread_node(g, conn, p, *inner, v->Node_0);
        },
        _ => {},
    }
}

/// Fanout: in a settled graph the root of a connection hears of it, and so
/// does every node that the root's value reaches, where the root and those
/// nodes are parents of what their values refer to.
pub proof fn lemma_fanout(g: Graph, root: u32, conn: usize)
    requires
        settled(g),
        well_typed(g),
        g.contains_key(root),
        g[root].root == Some(conn),
        complete_at(g, root),
        complete_on(g, reach(g, g[root].schema, g[root].value)),
    ensures
        g[root].conns.contains(conn),
        all_hear(g, reach(g, g[root].schema, g[root].value), conn),
{
    lemma_heard(g, root, root);
    lemma_no_cycle(g, root);
    lemma_spread(g, conn, root, g[root].schema, g[root].value);
}

/// After adoption the adopting node is a parent of every node that its value
/// refers to, and so is each node that its value reaches; no node has lost a
/// parent.
pub proof fn lemma_adopted_links(g: Graph, id: u32)
    requires
        well_typed(g),
        edges_within(g),
        g.contains_key(id),
    ensures
        grows(g, crate::node::adopted(g, id)),
        complete_at(crate::node::adopted(g, id), id),
        complete_on(crate::node::adopted(g, id), reach(g, g[id].schema, g[id].value)),
{
    let s = g[id].schema;
    let v = g[id].value;
    let r = reach(g, s, v);
    let g1 = below(g, Pass::Adopt(id), id);
    assert(typed(g, s, v));
    lemma_no_cycle(g, id);
    lemma_adopt_links(g, id, s, v);
    lemma_adopt(g, id, s, v);
    lemma_only_parents(g, g1, r);
    lemma_typed_same(g, g1, s, v);
    lemma_reach_same(g, g1, s, v);
    lemma_refresh(g1, s, v);
    let g2 = below(g1, Pass::Refresh, id);
    assert(grows(g1, g2)) by {
        assert forall|x: u32| g1.contains_key(x) implies #[trigger] keeps_parents(g1, g2, x) by {
            assert(alike(g1, g2, x));
        }
        assert forall|x: u32| #[trigger] g1.contains_key(x) implies g1[x].schema == g2[x].schema
            && g1[x].value == g2[x].value by {
            assert(alike(g1, g2, x));
        }
    }
    lemma_grows_twice(g, g1, g2);
    lemma_grows(g1, g2, id, direct(s, v), r);
    assert(complete_at(g2, id)) by {
        assert(g2[id].schema == s && g2[id].value == v);
    }
}

/// Fanout to a new root: once a node that was no root has become the root
/// of a connection and has adopted what its value refers to, it and every
/// node that its value reaches hear of the connection.
pub proof fn lemma_rooted_fanout(g: Graph, id: u32, conn: usize)
    requires
        settled(g),
        well_typed(g),
        edges_within(g),
        g.contains_key(id),
        g[id].root is None,
    ensures
        crate::node::adopted(with_root(g, id, conn), id)[id].conns.contains(conn),
        all_hear(
            crate::node::adopted(with_root(g, id, conn), id),
            reach(g, g[id].schema, g[id].value),
            conn,
        ),
{
    let g1 = with_root(g, id, conn);
    let h = crate::node::adopted(g1, id);
    lemma_rooted(g, id, conn);
    assert(same_values(g, g1));
    assert forall|x: u32| #[trigger] g1.contains_key(x) implies typed(
        g1,
        g1[x].schema,
        g1[x].value,
    ) by {
        assert(g.contains_key(x));
        lemma_typed_same(g, g1, g[x].schema, g[x].value);
    }
    assert forall|d: u32, q: u32| #[trigger] edge_ok(g1, d, q) by {
        if g1.contains_key(d) && g1.contains_key(q) && g1[d].parents.contains(q) {
            assert(edge_ok(g, d, q));
            lemma_reach_same(g, g1, g[q].schema, g[q].value);
        }
    }
    lemma_only_root(g1, id);
    lemma_adopted_links(g1, id);
    lemma_reach_same(g, g1, g[id].schema, g[id].value);
    lemma_reach_same(g1, h, g[id].schema, g[id].value);
    lemma_fanout(h, id, conn);
}

/// Whether `r` is a root of the connection `conn` from which the node `x`
/// can be reached: it is `x`, or its value reaches `x`.
pub open spec fn served_by(g: Graph, x: u32, conn: usize, r: u32) -> bool {
    g.contains_key(r) && g[r].root == Some(conn) && (r == x || reach(
        g,
        g[r].schema,
        g[r].value,
    ).contains(x))
}

/// Whether no node's shape weighs more than `w`.
pub open spec fn bounded(g: Graph, w: nat) -> bool {
    forall|x: u32| g.contains_key(x) ==> weight((#[trigger] g[x]).schema) <= w
}

/// Fanout, the other way round: in a settled graph a node hears of a
/// connection only where it is a root of the connection, or the value of a
/// root of the connection reaches it.
///
/// The bound `w` on the weight of the shapes is there for the proof, which
/// goes from a node to a parent with a heavier shape; every graph with
/// finitely many nodes has one.
pub proof fn lemma_only_below_roots(g: Graph, x: u32, conn: usize, w: nat)
    requires
        settled(g),
        well_typed(g),
        edges_within(g),
        bounded(g, w),
        g.contains_key(x),
        g[x].conns.contains(conn),
    ensures
        exists|r: u32| served_by(g, x, conn, r),
    decreases w - weight(g[x].schema),
{
    assert(at_rest(g, x));
    if root_set(g[x].root).contains(conn) {
        assert(served_by(g, x, conn, x));
    } else {
        assert(inherited(g, g[x].parents).contains(conn));
        let p = choose|p: u32| g[x].parents.contains(p) && #[trigger] lent(g, p).contains(conn);
        assert(g.contains_key(p));
        assert(edge_ok(g, x, p));
        lemma_reach_lighter(g, g[p].schema, g[p].value, x);
        if root_set(g[p].root).contains(conn) {
            assert(served_by(g, x, conn, p));
        } else {
            lemma_only_below_roots(g, p, conn, w);
            let r = choose|r: u32| served_by(g, p, conn, r);
            if r != p {
                lemma_reach_closed(g, g[r].schema, g[r].value, p);
            }
            assert(served_by(g, x, conn, r));
        }
    }
}

/// Two-client fanout: a node that the values of two roots reach hears of
/// the connections of both; and whatever connection a node hears of, it is
/// a root of that connection or the value of such a root reaches it, so
/// that a node which only one root reaches hears of the other root's
/// connection from no one.
pub proof fn lemma_two_client_fanout(
    g: Graph,
    one: u32,
    two: u32,
    a: usize,
    b: usize,
    x: u32,
    w: nat,
)
    requires
        settled(g),
        well_typed(g),
        edges_within(g),
        bounded(g, w),
        g.contains_key(one),
        g.contains_key(two),
        g[one].root == Some(a),
        g[two].root == Some(b),
        complete_at(g, one),
        complete_at(g, two),
        complete_on(g, reach(g, g[one].schema, g[one].value)),
        complete_on(g, reach(g, g[two].schema, g[two].value)),
        g.contains_key(x),
    ensures
        reach(g, g[one].schema, g[one].value).contains(x) ==> g[x].conns.contains(a),
        reach(g, g[two].schema, g[two].value).contains(x) ==> g[x].conns.contains(b),
        forall|c: usize| g[x].conns.contains(c) ==> exists|r: u32| #[trigger] served_by(g, x, c, r),
{
    lemma_fanout(g, one, a);
    lemma_fanout(g, two, b);
    assert forall|c: usize| g[x].conns.contains(c) implies exists|r: u32| #[trigger]
        served_by(g, x, c, r) by {
        lemma_only_below_roots(g, x, c, w);
    }
}

} // verus!
