//! Laws of the bookkeeping as a whole: what holds of the parents and the
//! connections of all nodes before a node is made, made a root, or given
//! another value, holds afterwards.

use crate::fanout::{
    alike, all_hear, at_rest, untouched, complete_at, complete_on, direct, direct_entries, direct_items,
    direct_row, edge_ok, edges_to, edges_within, grows, keeps_parents, lemma_adopt,
    lemma_adopt_links, lemma_grows, lemma_grows_twice, linked, lemma_adopted, lemma_adopted_links,
    lemma_only_parents, lemma_only_root, lemma_reach_same, lemma_refresh, lemma_release,
    lemma_released, lemma_rooted, lemma_rooted_fanout, lemma_typed_same, same_values, settled,
    well_typed, with_root,
};
use crate::fanout::lemma_no_cycle;
use crate::node::{member_refused, member_update, ContextView};
use crate::value::{dict_cut, dict_put, key_index, lemma_key_index};
use crate::visitor::updater::{
    changed, edit_typed, intended, lemma_hit_bounds, sent_update, target, whole, EditView,
    UpdateOp,
};
use crate::server::rooted;
use crate::links::{due, inherited, lent, refresh_one, taken_in, walked, walked_entries};
use crate::links::walked_items;
use crate::links::{walked_row, with_parent, without_parent, Pass};
use crate::node::{adopted, below, fresh_node, released, Graph, NodeView, Role};
use crate::replication::{known, lemma_reach_known, reach, reach_entries, reach_items, reach_row};
use crate::value::{FieldView, SchemaView, ValueView};
use crate::visitor::serializer::{lemma_typed_dict, lemma_typed_list, lemma_typed_row};
use crate::visitor::serializer::{typed, typed_row};
use vstd::prelude::*;

verus! {

/// What the first `n` items refer to themselves, they reach.
pub proof fn lemma_direct_items_reached(g: Graph, e: SchemaView, items: Seq<ValueView>, n: nat)
    ensures
        direct_items(e, items, n).subset_of(reach_items(g, e, items, n)),
    decreases e, 3nat, n,
{
    if n > 0 {
        lemma_direct_items_reached(g, e, items, (n - 1) as nat);
        lemma_direct_reached(g, e, items[n - 1]);
    }
}

/// What the first `n` entries refer to themselves, they reach.
pub proof fn lemma_direct_entries_reached(
    g: Graph,
    s: SchemaView,
    entries: Seq<(ValueView, ValueView)>,
    n: nat,
)
    ensures
        direct_entries(s, entries, n).subset_of(reach_entries(g, s, entries, n)),
    decreases s, 0nat, n,
{
    match s {
        SchemaView::Dict(k, w) => {
            if n > 0 {
                lemma_direct_entries_reached(g, s, entries, (n - 1) as nat);
                lemma_direct_reached(g, *k, entries[n - 1].0);
                lemma_direct_reached(g, *w, entries[n - 1].1);
            }
        },
        _ => {},
    }
}

/// What the first `n` members of a row refer to themselves, they reach.
pub proof fn lemma_direct_row_reached(
    g: Graph,
    fields: Seq<FieldView>,
    members: Seq<ValueView>,
    n: nat,
)
    ensures
        direct_row(fields, members, n).subset_of(reach_row(g, fields, members, n)),
    decreases fields, 0nat, n,
{
    if n > 0 && n <= fields.len() {
        lemma_direct_row_reached(g, fields, members, (n - 1) as nat);
        lemma_direct_reached(g, fields[n - 1].ty, members[n - 1]);
    }
}

/// What a value refers to itself, it reaches.
pub proof fn lemma_direct_reached(g: Graph, s: SchemaView, v: ValueView)
    ensures
        direct(s, v).subset_of(reach(g, s, v)),
    decreases s, 1nat, 0nat,
{
    match (s, v) {
        (SchemaView::List(e), ValueView::List(items)) => {
            lemma_direct_items_reached(g, *e, items, items.len());
        },
        (SchemaView::Dict(_, _), ValueView::Dict(entries)) => {
            lemma_direct_entries_reached(g, s, entries, entries.len());
        },
        (SchemaView::Maybe(e), ValueView::Maybe(Some(inner))) => {
            lemma_direct_reached(g, *e, *inner);
        },
        (SchemaView::Record(fields), ValueView::Record(members)) => {
            lemma_direct_row_reached(g, fields, members, fields.len());
        },
        (SchemaView::Choice(variants), ValueView::Choice(tag, members)) => {
            if tag < variants.len() {
                lemma_direct_row_reached(
                    g,
                    variants[tag as int],
                    members,
                    variants[tag as int].len(),
                );
            }
        },
        _ => {},
    }
}

/// Whether `q` is a parent of `d` only where `q` is a node whose value
/// refers to `d` itself.
pub open spec fn edge_direct(g: Graph, d: u32, q: u32) -> bool {
    g.contains_key(d) && g[d].parents.contains(q) ==> g.contains_key(q) && direct(
        g[q].schema,
        g[q].value,
    ).contains(d)
}

/// Whether every parent of a node is a node whose value refers to it.
pub open spec fn edges_direct(g: Graph) -> bool {
    forall|d: u32, q: u32| #[trigger] edge_direct(g, d, q)
}

/// Where every parent of a node refers to it, every parent reaches it.
pub proof fn lemma_direct_within(g: Graph)
    requires
        edges_direct(g),
    ensures
        edges_within(g),
{
    assert forall|d: u32, q: u32| #[trigger] edge_ok(g, d, q) by {
        assert(edge_direct(g, d, q));
        if g.contains_key(d) && g[d].parents.contains(q) {
            lemma_direct_reached(g, g[q].schema, g[q].value);
        }
    }
}

/// Whether `h` holds every node of `g`, with the same shape and value.
pub open spec fn part_of(g: Graph, h: Graph) -> bool {
    forall|id: u32| #[trigger]
        g.contains_key(id) ==> h.contains_key(id) && h[id].schema == g[id].schema && h[id].value
            == g[id].value
}

/// A row that has its shapes among some nodes has them among more nodes.
pub proof fn lemma_typed_row_more(g: Graph, h: Graph, fields: Seq<FieldView>, members: Seq<ValueView>)
    requires
        part_of(g, h),
        typed_row(g, fields, members),
    ensures
        typed_row(h, fields, members),
    decreases fields, 0nat, 0nat,
{
    lemma_typed_row(g, fields, members);
    lemma_typed_row(h, fields, members);
    assert forall|i: int| 0 <= i < fields.len() implies typed(
        h,
        (#[trigger] fields[i]).ty,
        members[i],
    ) by {
        assert(typed(g, fields[i].ty, members[i]));
        lemma_typed_more(g, h, fields[i].ty, members[i]);
    }
}

/// A value that has its shape among some nodes has it among more nodes.
pub proof fn lemma_typed_more(g: Graph, h: Graph, s: SchemaView, v: ValueView)
    requires
        part_of(g, h),
        typed(g, s, v),
    ensures
        typed(h, s, v),
    decreases s, 1nat, 0nat,
{
    match s {
        SchemaView::List(e) => {
            let items = v->List_0;
            lemma_typed_list(g, *e, items);
            lemma_typed_list(h, *e, items);
            assert forall|i: int| 0 <= i < items.len() implies typed(h, *e, #[trigger] items[i]) by {
                assert(typed(g, *e, items[i]));
                lemma_typed_more(g, h, *e, items[i]);
            }
        },
        SchemaView::Dict(k, w) => {
            let entries = v->Dict_0;
            lemma_typed_dict(g, *k, *w, entries);
            lemma_typed_dict(h, *k, *w, entries);
            assert forall|i: int| 0 <= i < entries.len() implies typed(
                h,
                *k,
                (#[trigger] entries[i]).0,
            ) && typed(h, *w, entries[i].1) by {
                assert(typed(g, *k, entries[i].0) && typed(g, *w, entries[i].1));
                lemma_typed_more(g, h, *k, entries[i].0);
                lemma_typed_more(g, h, *w, entries[i].1);
            }
        },
        SchemaView::Maybe(e) => {
            match v->Maybe_0 {
                Some(inner) => {
                    lemma_typed_more(g, h, *e, *inner);
                },
                None => {},
            }
        },
        SchemaView::Record(fields) => {
            lemma_typed_row_more(g, h, fields, v->Record_0);
        },
        SchemaView::Choice(variants) => {
            lemma_typed_row_more(g, h, variants[v->Choice_0 as int], v->Choice_1);
        },
        SchemaView::Node(inner) => {
            let id = v->Node_0;
            assert(g.contains_key(id));
            lemma_typed_more(g, h, *inner, g[id].value);
        },
        _ => {},
    }
}

/// What the first `n` well-shaped items reach among some nodes, they reach
/// among more nodes.
pub proof fn lemma_reach_items_more(
    g: Graph,
    h: Graph,
    e: SchemaView,
    items: Seq<ValueView>,
    n: nat,
)
    requires
        part_of(g, h),
        n <= items.len(),
        forall|i: int| 0 <= i < items.len() ==> typed(g, e, #[trigger] items[i]),
    ensures
        reach_items(h, e, items, n) == reach_items(g, e, items, n),
    decreases e, 3nat, n,
{
    if n > 0 {
        lemma_reach_items_more(g, h, e, items, (n - 1) as nat);
        assert(typed(g, e, items[n - 1]));
        lemma_reach_more(g, h, e, items[n - 1]);
    }
}

/// What the first `n` well-shaped entries reach among some nodes, they reach
/// among more nodes.
pub proof fn lemma_reach_entries_more(
    g: Graph,
    h: Graph,
    s: SchemaView,
    entries: Seq<(ValueView, ValueView)>,
    n: nat,
)
    requires
        part_of(g, h),
        s is Dict,
        n <= entries.len(),
        forall|i: int|
            0 <= i < entries.len() ==> typed(g, *s->Dict_0, (#[trigger] entries[i]).0) && typed(
                g,
                *s->Dict_1,
                entries[i].1,
            ),
    ensures
        reach_entries(h, s, entries, n) == reach_entries(g, s, entries, n),
    decreases s, 0nat, n,
{
    if n > 0 {
        lemma_reach_entries_more(g, h, s, entries, (n - 1) as nat);
        assert(typed(g, *s->Dict_0, entries[n - 1].0) && typed(g, *s->Dict_1, entries[n - 1].1));
        lemma_reach_more(g, h, *s->Dict_0, entries[n - 1].0);
        lemma_reach_more(g, h, *s->Dict_1, entries[n - 1].1);
    }
}

/// What the first `n` members of a well-shaped row reach among some nodes,
/// they reach among more nodes.
pub proof fn lemma_reach_row_more(
    g: Graph,
    h: Graph,
    fields: Seq<FieldView>,
    members: Seq<ValueView>,
    n: nat,
)
    requires
        part_of(g, h),
        n <= fields.len(),
        typed_row(g, fields, members),
    ensures
        reach_row(h, fields, members, n) == reach_row(g, fields, members, n),
    decreases fields, 0nat, n,
{
    lemma_typed_row(g, fields, members);
    if n > 0 {
        lemma_reach_row_more(g, h, fields, members, (n - 1) as nat);
        assert(typed(g, fields[n - 1].ty, members[n - 1]));
        lemma_reach_more(g, h, fields[n - 1].ty, members[n - 1]);
    }
}

/// What a well-shaped value reaches among some nodes, it reaches among more
/// nodes.
pub proof fn lemma_reach_more(g: Graph, h: Graph, s: SchemaView, v: ValueView)
    requires
        part_of(g, h),
        typed(g, s, v),
    ensures
        reach(h, s, v) == reach(g, s, v),
    decreases s, 1nat, 0nat,
{
    match s {
        SchemaView::List(e) => {
            lemma_typed_list(g, *e, v->List_0);
            lemma_reach_items_more(g, h, *e, v->List_0, v->List_0.len());
        },
        SchemaView::Dict(k, w) => {
            lemma_typed_dict(g, *k, *w, v->Dict_0);
            lemma_reach_entries_more(g, h, s, v->Dict_0, v->Dict_0.len());
        },
        SchemaView::Maybe(e) => {
            match v->Maybe_0 {
                Some(inner) => {
                    lemma_reach_more(g, h, *e, *inner);
                },
                None => {},
            }
        },
        SchemaView::Record(fields) => {
            lemma_typed_row(g, fields, v->Record_0);
            lemma_reach_row_more(g, h, fields, v->Record_0, fields.len());
        },
        SchemaView::Choice(variants) => {
            let fields = variants[v->Choice_0 as int];
            lemma_typed_row(g, fields, v->Choice_1);
            lemma_reach_row_more(g, h, fields, v->Choice_1, fields.len());
        },
        SchemaView::Node(inner) => {
            let id = v->Node_0;
            assert(g.contains_key(id));
            lemma_reach_more(g, h, *inner, g[id].value);
        },
        _ => {},
    }
}

/// Whether `h` is `g` with another value for the node `id`.
pub open spec fn revalued(g: Graph, h: Graph, id: u32) -> bool {
    &&& forall|x: u32| #[trigger] g.contains_key(x) <==> h.contains_key(x)
    &&& forall|x: u32| #[trigger] g.contains_key(x) ==> h[x].schema == g[x].schema
    &&& forall|x: u32| #[trigger] g.contains_key(x) && x != id ==> h[x].value == g[x].value
}

/// A row keeps its shapes when a node gets another value of the node's
/// shape.
pub proof fn lemma_typed_row_revalued(
    g: Graph,
    h: Graph,
    id: u32,
    fields: Seq<FieldView>,
    members: Seq<ValueView>,
)
    requires
        revalued(g, h, id),
        h.contains_key(id) ==> typed(h, h[id].schema, h[id].value),
        typed_row(g, fields, members),
    ensures
        typed_row(h, fields, members),
    decreases fields, 0nat, 0nat,
{
    lemma_typed_row(g, fields, members);
    lemma_typed_row(h, fields, members);
    assert forall|i: int| 0 <= i < fields.len() implies typed(
        h,
        (#[trigger] fields[i]).ty,
        members[i],
    ) by {
        assert(typed(g, fields[i].ty, members[i]));
        lemma_typed_revalued(g, h, id, fields[i].ty, members[i]);
    }
}

/// A value keeps its shape when a node gets another value of the node's
/// shape.
pub proof fn lemma_typed_revalued(g: Graph, h: Graph, id: u32, s: SchemaView, v: ValueView)
    requires
        revalued(g, h, id),
        h.contains_key(id) ==> typed(h, h[id].schema, h[id].value),
        typed(g, s, v),
    ensures
        typed(h, s, v),
    decreases s, 1nat, 0nat,
{
    match s {
        SchemaView::List(e) => {
            let items = v->List_0;
            lemma_typed_list(g, *e, items);
            lemma_typed_list(h, *e, items);
            assert forall|i: int| 0 <= i < items.len() implies typed(h, *e, #[trigger] items[i]) by {
                assert(typed(g, *e, items[i]));
                lemma_typed_revalued(g, h, id, *e, items[i]);
            }
        },
        SchemaView::Dict(k, w) => {
            let entries = v->Dict_0;
            lemma_typed_dict(g, *k, *w, entries);
            lemma_typed_dict(h, *k, *w, entries);
            assert forall|i: int| 0 <= i < entries.len() implies typed(
                h,
                *k,
                (#[trigger] entries[i]).0,
            ) && typed(h, *w, entries[i].1) by {
                assert(typed(g, *k, entries[i].0) && typed(g, *w, entries[i].1));
                lemma_typed_revalued(g, h, id, *k, entries[i].0);
                lemma_typed_revalued(g, h, id, *w, entries[i].1);
            }
        },
        SchemaView::Maybe(e) => {
            match v->Maybe_0 {
                Some(inner) => {
                    lemma_typed_revalued(g, h, id, *e, *inner);
                },
                None => {},
            }
        },
        SchemaView::Record(fields) => {
            lemma_typed_row_revalued(g, h, id, fields, v->Record_0);
        },
        SchemaView::Choice(variants) => {
            lemma_typed_row_revalued(g, h, id, variants[v->Choice_0 as int], v->Choice_1);
        },
        SchemaView::Node(inner) => {
            let c = v->Node_0;
            assert(g.contains_key(c));
            if c != id {
                lemma_typed_revalued(g, h, id, *inner, g[c].value);
            }
        },
        _ => {},
    }
}

/// Whether the node `x` is in `h` what it is in `g`, but without the parent
/// `p` where it is among `own`.
pub open spec fn cut_at(g: Graph, h: Graph, p: u32, own: Set<u32>, x: u32) -> bool {
    h[x] == (NodeView {
        parents: if own.contains(x) {
            g[x].parents.remove(p)
        } else {
            g[x].parents
        },
        ..g[x]
    })
}

/// Whether `h` is `g` with the parent `p` taken from the nodes `own`.
pub open spec fn cuts(g: Graph, h: Graph, p: u32, own: Set<u32>) -> bool {
    &&& forall|x: u32| #[trigger] g.contains_key(x) <==> h.contains_key(x)
    &&& forall|x: u32| g.contains_key(x) ==> #[trigger] cut_at(g, h, p, own, x)
}

/// Taking a parent from some nodes leaves the values as they are.
pub proof fn lemma_cuts_same(g: Graph, h: Graph, p: u32, own: Set<u32>)
    requires
        cuts(g, h, p, own),
    ensures
        same_values(g, h),
{
    assert forall|x: u32| #[trigger] g.contains_key(x) implies g[x].schema == h[x].schema
        && g[x].value == h[x].value by {
        assert(cut_at(g, h, p, own, x));
    }
}

/// Taking a parent from some nodes, and then from others, takes it from all
/// of them.
pub proof fn lemma_cuts_twice(g: Graph, g1: Graph, g2: Graph, p: u32, a: Set<u32>, b: Set<u32>)
    requires
        cuts(g, g1, p, a),
        cuts(g1, g2, p, b),
    ensures
        cuts(g, g2, p, a.union(b)),
{
    assert forall|x: u32| #[trigger] g.contains_key(x) <==> g2.contains_key(x) by {
        assert(g.contains_key(x) <==> g1.contains_key(x));
        assert(g1.contains_key(x) <==> g2.contains_key(x));
    }
    assert forall|x: u32| g.contains_key(x) implies #[trigger] cut_at(g, g2, p, a.union(b), x) by {
        assert(cut_at(g, g1, p, a, x));
        assert(g1.contains_key(x));
        assert(cut_at(g1, g2, p, b, x));
        assert(g[x].parents.remove(p).remove(p) =~= g[x].parents.remove(p));
    }
}

/// Taking a parent from no node changes nothing.
pub proof fn lemma_cuts_none(g: Graph, p: u32)
    ensures
        cuts(g, g, p, Set::empty()),
{
    assert forall|x: u32| g.contains_key(x) implies #[trigger] cut_at(
        g,
        g,
        p,
        Set::<u32>::empty(),
        x,
    ) by {}
}

/// A releasing walk over the first `n` items of a list takes the parent from
/// what the items refer to.
pub proof fn lemma_release_cuts_items(
    g: Graph,
    p: u32,
    e: SchemaView,
    items: Seq<ValueView>,
    n: nat,
)
    requires
        n <= items.len(),
        forall|i: int| 0 <= i < items.len() ==> typed(g, e, #[trigger] items[i]),
    ensures
        cuts(g, walked_items(g, Pass::Release(p), e, items, n), p, direct_items(e, items, n)),
    decreases e, 3nat, n,
{
    if n > 0 {
        let g1 = walked_items(g, Pass::Release(p), e, items, (n - 1) as nat);
        lemma_release_cuts_items(g, p, e, items, (n - 1) as nat);
        lemma_cuts_same(g, g1, p, direct_items(e, items, (n - 1) as nat));
        assert(typed(g, e, items[n - 1]));
        lemma_typed_same(g, g1, e, items[n - 1]);
        lemma_release_cuts(g1, p, e, items[n - 1]);
        let g2 = walked(g1, Pass::Release(p), e, items[n - 1]);
        lemma_cuts_twice(
            g,
            g1,
            g2,
            p,
            direct_items(e, items, (n - 1) as nat),
            direct(e, items[n - 1]),
        );
    } else {
        lemma_cuts_none(g, p);
    }
}

/// A releasing walk over the first `n` entries of a mapping takes the parent
/// from what the entries refer to.
pub proof fn lemma_release_cuts_entries(
    g: Graph,
    p: u32,
    s: SchemaView,
    entries: Seq<(ValueView, ValueView)>,
    n: nat,
)
    requires
        s is Dict,
        n <= entries.len(),
        forall|i: int|
            0 <= i < entries.len() ==> typed(g, *s->Dict_0, (#[trigger] entries[i]).0) && typed(
                g,
                *s->Dict_1,
                entries[i].1,
            ),
    ensures
        cuts(
            g,
            walked_entries(g, Pass::Release(p), s, entries, n),
            p,
            direct_entries(s, entries, n),
        ),
    decreases s, 0nat, n,
{
    if n > 0 {
        let k = *s->Dict_0;
        let w = *s->Dict_1;
        let a = direct_entries(s, entries, (n - 1) as nat);
        let g1 = walked_entries(g, Pass::Release(p), s, entries, (n - 1) as nat);
        lemma_release_cuts_entries(g, p, s, entries, (n - 1) as nat);
        lemma_cuts_same(g, g1, p, a);
        assert(typed(g, k, entries[n - 1].0) && typed(g, w, entries[n - 1].1));
        lemma_typed_same(g, g1, k, entries[n - 1].0);
        lemma_release_cuts(g1, p, k, entries[n - 1].0);
        let g2 = walked(g1, Pass::Release(p), k, entries[n - 1].0);
        lemma_cuts_twice(g, g1, g2, p, a, direct(k, entries[n - 1].0));
        let b = a.union(direct(k, entries[n - 1].0));
        lemma_cuts_same(g, g2, p, b);
        lemma_typed_same(g, g2, w, entries[n - 1].1);
        lemma_release_cuts(g2, p, w, entries[n - 1].1);
        let g3 = walked(g2, Pass::Release(p), w, entries[n - 1].1);
        lemma_cuts_twice(g, g2, g3, p, b, direct(w, entries[n - 1].1));
        assert(b.union(direct(w, entries[n - 1].1)) =~= direct_entries(s, entries, n));
    } else {
        lemma_cuts_none(g, p);
    }
}

/// A releasing walk over the first `n` members of a row takes the parent
/// from what the members refer to.
pub proof fn lemma_release_cuts_row(
    g: Graph,
    p: u32,
    fields: Seq<FieldView>,
    members: Seq<ValueView>,
    n: nat,
)
    requires
        n <= fields.len(),
        typed_row(g, fields, members),
    ensures
        cuts(g, walked_row(g, Pass::Release(p), fields, members, n), p, direct_row(fields, members, n)),
    decreases fields, 0nat, n,
{
    lemma_typed_row(g, fields, members);
    if n > 0 {
        let a = direct_row(fields, members, (n - 1) as nat);
        let g1 = walked_row(g, Pass::Release(p), fields, members, (n - 1) as nat);
        lemma_release_cuts_row(g, p, fields, members, (n - 1) as nat);
        lemma_cuts_same(g, g1, p, a);
        let s = fields[n - 1].ty;
        let v = members[n - 1];
        assert(typed(g, s, v));
        lemma_typed_same(g, g1, s, v);
        lemma_release_cuts(g1, p, s, v);
        let g2 = walked(g1, Pass::Release(p), s, v);
        lemma_cuts_twice(g, g1, g2, p, a, direct(s, v));
    } else {
        lemma_cuts_none(g, p);
    }
}

/// A releasing walk takes the parent from the nodes that the value refers
/// to itself, and changes nothing else.
pub proof fn lemma_release_cuts(g: Graph, p: u32, s: SchemaView, v: ValueView)
    requires
        typed(g, s, v),
    ensures
        cuts(g, walked(g, Pass::Release(p), s, v), p, direct(s, v)),
    decreases s, 1nat, 0nat,
{
    match s {
        SchemaView::List(e) => {
            lemma_typed_list(g, *e, v->List_0);
            lemma_release_cuts_items(g, p, *e, v->List_0, v->List_0.len());
        },
        SchemaView::Dict(k, w) => {
            lemma_typed_dict(g, *k, *w, v->Dict_0);
            lemma_release_cuts_entries(g, p, s, v->Dict_0, v->Dict_0.len());
        },
        SchemaView::Maybe(e) => {
            match v->Maybe_0 {
                Some(inner) => {
                    lemma_release_cuts(g, p, *e, *inner);
                },
                None => {
                    lemma_cuts_none(g, p);
                },
            }
        },
        SchemaView::Record(fields) => {
            lemma_typed_row(g, fields, v->Record_0);
            lemma_release_cuts_row(g, p, fields, v->Record_0, fields.len());
        },
        SchemaView::Choice(variants) => {
            let fields = variants[v->Choice_0 as int];
            lemma_typed_row(g, fields, v->Choice_1);
            lemma_release_cuts_row(g, p, fields, v->Choice_1, fields.len());
        },
        SchemaView::Node(inner) => {
            let c = v->Node_0;
            let h = without_parent(g, c, p);
            assert forall|x: u32| g.contains_key(x) implies #[trigger] cut_at(
                g,
                h,
                p,
                set![c],
                x,
            ) by {}
        },
        _ => {
            lemma_cuts_none(g, p);
        },
    }
}

/// Whether `q` is a parent of `d` in `h` only where it was one in `g`, or it
/// is `p` and `d` is among `own`, or it is among `reached` and its value
/// refers to `d`.
pub open spec fn edge_added(
    g: Graph,
    h: Graph,
    p: u32,
    own: Set<u32>,
    reached: Set<u32>,
    d: u32,
    q: u32,
) -> bool {
    h.contains_key(d) && h[d].parents.contains(q) ==> g[d].parents.contains(q) || (q == p
        && own.contains(d)) || (reached.contains(q) && direct(g[q].schema, g[q].value).contains(d))
}

/// Whether `h` has the values of `g`, and no parents but those of `g`, the
/// parent `p` for nodes among `own`, and nodes among `reached` for what
/// their values refer to.
pub open spec fn adds(g: Graph, h: Graph, p: u32, own: Set<u32>, reached: Set<u32>) -> bool {
    &&& same_values(g, h)
    &&& forall|d: u32, q: u32| #[trigger] edge_added(g, h, p, own, reached, d, q)
}

/// Parents given in two steps are parents given.
pub proof fn lemma_adds_twice(
    g: Graph,
    g1: Graph,
    g2: Graph,
    p: u32,
    a: Set<u32>,
    b: Set<u32>,
    r1: Set<u32>,
    r2: Set<u32>,
)
    requires
        adds(g, g1, p, a, r1),
        adds(g1, g2, p, b, r2),
        known(g, r2),
    ensures
        adds(g, g2, p, a.union(b), r1.union(r2)),
{
    assert forall|x: u32| #[trigger] g.contains_key(x) <==> g2.contains_key(x) by {
        assert(g.contains_key(x) <==> g1.contains_key(x));
        assert(g1.contains_key(x) <==> g2.contains_key(x));
    }
    assert forall|x: u32| #[trigger] g.contains_key(x) implies g[x].schema == g2[x].schema
        && g[x].value == g2[x].value by {
        assert(g1.contains_key(x));
    }
    assert forall|d: u32, q: u32| #[trigger]
        edge_added(g, g2, p, a.union(b), r1.union(r2), d, q) by {
        if g2.contains_key(d) && g2[d].parents.contains(q) {
            assert(edge_added(g1, g2, p, b, r2, d, q));
            assert(g1.contains_key(d));
            if g1[d].parents.contains(q) {
                assert(edge_added(g, g1, p, a, r1, d, q));
            } else if r2.contains(q) {
                assert(g.contains_key(q));
            }
        }
    }
}

/// No change gives no parents.
pub proof fn lemma_adds_none(g: Graph, p: u32)
    ensures
        adds(g, g, p, Set::empty(), Set::empty()),
{
    assert forall|d: u32, q: u32| #[trigger]
        edge_added(g, g, p, Set::<u32>::empty(), Set::<u32>::empty(), d, q) by {}
}

/// An adopting walk over the first `n` items of a list gives no parents but
/// to what the items, and the nodes that they reach, refer to.
pub proof fn lemma_adopt_adds_items(
    g: Graph,
    p: u32,
    e: SchemaView,
    items: Seq<ValueView>,
    n: nat,
)
    requires
        n <= items.len(),
        forall|i: int| 0 <= i < items.len() ==> typed(g, e, #[trigger] items[i]),
    ensures
        adds(
            g,
            walked_items(g, Pass::Adopt(p), e, items, n),
            p,
            direct_items(e, items, n),
            reach_items(g, e, items, n),
        ),
    decreases e, 3nat, n,
{
    if n > 0 {
        let g1 = walked_items(g, Pass::Adopt(p), e, items, (n - 1) as nat);
        lemma_adopt_adds_items(g, p, e, items, (n - 1) as nat);
        assert(typed(g, e, items[n - 1]));
        lemma_typed_same(g, g1, e, items[n - 1]);
        lemma_reach_same(g, g1, e, items[n - 1]);
        lemma_reach_known(g, e, items[n - 1]);
        lemma_adopt_adds(g1, p, e, items[n - 1]);
        let g2 = walked(g1, Pass::Adopt(p), e, items[n - 1]);
        lemma_adds_twice(
            g,
            g1,
            g2,
            p,
            direct_items(e, items, (n - 1) as nat),
            direct(e, items[n - 1]),
            reach_items(g, e, items, (n - 1) as nat),
            reach(g, e, items[n - 1]),
        );
    } else {
        lemma_adds_none(g, p);
    }
}

/// An adopting walk over the first `n` entries of a mapping gives no parents
/// but to what the entries, and the nodes that they reach, refer to.
pub proof fn lemma_adopt_adds_entries(
    g: Graph,
    p: u32,
    s: SchemaView,
    entries: Seq<(ValueView, ValueView)>,
    n: nat,
)
    requires
        s is Dict,
        n <= entries.len(),
        forall|i: int|
            0 <= i < entries.len() ==> typed(g, *s->Dict_0, (#[trigger] entries[i]).0) && typed(
                g,
                *s->Dict_1,
                entries[i].1,
            ),
    ensures
        adds(
            g,
            walked_entries(g, Pass::Adopt(p), s, entries, n),
            p,
            direct_entries(s, entries, n),
            reach_entries(g, s, entries, n),
        ),
    decreases s, 0nat, n,
{
    if n > 0 {
        let k = *s->Dict_0;
        let w = *s->Dict_1;
        let a = direct_entries(s, entries, (n - 1) as nat);
        let r = reach_entries(g, s, entries, (n - 1) as nat);
        let g1 = walked_entries(g, Pass::Adopt(p), s, entries, (n - 1) as nat);
        lemma_adopt_adds_entries(g, p, s, entries, (n - 1) as nat);
        assert(typed(g, k, entries[n - 1].0) && typed(g, w, entries[n - 1].1));
        lemma_typed_same(g, g1, k, entries[n - 1].0);
        lemma_reach_same(g, g1, k, entries[n - 1].0);
        lemma_reach_known(g, k, entries[n - 1].0);
        lemma_adopt_adds(g1, p, k, entries[n - 1].0);
        let g2 = walked(g1, Pass::Adopt(p), k, entries[n - 1].0);
        lemma_adds_twice(
            g,
            g1,
            g2,
            p,
            a,
            direct(k, entries[n - 1].0),
            r,
            reach(g, k, entries[n - 1].0),
        );
        let b = a.union(direct(k, entries[n - 1].0));
        let r2 = r.union(reach(g, k, entries[n - 1].0));
        lemma_typed_same(g, g2, w, entries[n - 1].1);
        lemma_reach_same(g, g2, w, entries[n - 1].1);
        lemma_reach_known(g, w, entries[n - 1].1);
        lemma_adopt_adds(g2, p, w, entries[n - 1].1);
        let g3 = walked(g2, Pass::Adopt(p), w, entries[n - 1].1);
        lemma_adds_twice(
            g,
            g2,
            g3,
            p,
            b,
            direct(w, entries[n - 1].1),
            r2,
            reach(g, w, entries[n - 1].1),
        );
        assert(b.union(direct(w, entries[n - 1].1)) =~= direct_entries(s, entries, n));
        assert(r2.union(reach(g, w, entries[n - 1].1)) =~= reach_entries(g, s, entries, n));
    } else {
        lemma_adds_none(g, p);
    }
}

/// An adopting walk over the first `n` members of a row gives no parents but
/// to what the members, and the nodes that they reach, refer to.
pub proof fn lemma_adopt_adds_row(
    g: Graph,
    p: u32,
    fields: Seq<FieldView>,
    members: Seq<ValueView>,
    n: nat,
)
    requires
        n <= fields.len(),
        typed_row(g, fields, members),
    ensures
        adds(
            g,
            walked_row(g, Pass::Adopt(p), fields, members, n),
            p,
            direct_row(fields, members, n),
            reach_row(g, fields, members, n),
        ),
    decreases fields, 0nat, n,
{
    lemma_typed_row(g, fields, members);
    if n > 0 {
        let g1 = walked_row(g, Pass::Adopt(p), fields, members, (n - 1) as nat);
        lemma_adopt_adds_row(g, p, fields, members, (n - 1) as nat);
        let s = fields[n - 1].ty;
        let v = members[n - 1];
        assert(typed(g, s, v));
        lemma_typed_same(g, g1, s, v);
        lemma_reach_same(g, g1, s, v);
        lemma_reach_known(g, s, v);
        lemma_adopt_adds(g1, p, s, v);
        let g2 = walked(g1, Pass::Adopt(p), s, v);
        lemma_adds_twice(
            g,
            g1,
            g2,
            p,
            direct_row(fields, members, (n - 1) as nat),
            direct(s, v),
            reach_row(g, fields, members, (n - 1) as nat),
            reach(g, s, v),
        );
    } else {
        lemma_adds_none(g, p);
    }
}

/// An adopting walk that comes to a node gives the node its parent, and
/// gives no other parents but to what the node, and the nodes that its
/// value reaches, refer to.
pub proof fn lemma_adopt_adds_node(g: Graph, p: u32, inner: SchemaView, id: u32)
    requires
        typed(g, SchemaView::Node(Box::new(inner)), ValueView::Node(id)),
    ensures
        adds(
            g,
            walked(g, Pass::Adopt(p), SchemaView::Node(Box::new(inner)), ValueView::Node(id)),
            p,
            set![id],
            reach(g, SchemaView::Node(Box::new(inner)), ValueView::Node(id)),
        ),
    decreases inner, 3nat, 0nat,
{
    let all = reach(g, SchemaView::Node(Box::new(inner)), ValueView::Node(id));
    if id == p {
        assert forall|d: u32, q: u32| #[trigger] edge_added(g, g, p, set![id], all, d, q) by {}
    } else {
        let content = g[id].value;
        let g0 = with_parent(g, id, p);
        assert(same_values(g, g0));
        lemma_typed_same(g, g0, inner, content);
        lemma_reach_same(g, g0, inner, content);
        lemma_adopt_adds(g0, id, inner, content);
        let h = walked(g0, Pass::Adopt(id), inner, content);
        assert forall|x: u32| #[trigger] g.contains_key(x) <==> h.contains_key(x) by {
            assert(g.contains_key(x) <==> g0.contains_key(x));
            assert(g0.contains_key(x) <==> h.contains_key(x));
        }
        assert forall|x: u32| #[trigger] g.contains_key(x) implies g[x].schema == h[x].schema
            && g[x].value == h[x].value by {
            assert(g0.contains_key(x));
        }
        assert forall|d: u32, q: u32| #[trigger] edge_added(g, h, p, set![id], all, d, q) by {
            if h.contains_key(d) && h[d].parents.contains(q) {
                assert(edge_added(
                    g0,
                    h,
                    id,
                    direct(inner, content),
                    reach(g0, inner, content),
                    d,
                    q,
                ));
                assert(g0.contains_key(d));
                assert(all.contains(id));
                if reach(g0, inner, content).contains(q) {
                    lemma_reach_known(g, inner, content);
                    assert(g.contains_key(q));
                }
            }
        }
    }
}

/// An adopting walk gives no parents but the adopting node to what the
/// value refers to, and each node that the value reaches to what its own
/// value refers to.
pub proof fn lemma_adopt_adds(g: Graph, p: u32, s: SchemaView, v: ValueView)
    requires
        typed(g, s, v),
    ensures
        adds(g, walked(g, Pass::Adopt(p), s, v), p, direct(s, v), reach(g, s, v)),
    decreases s, 1nat, 0nat,
{
    match s {
        SchemaView::List(e) => {
            lemma_typed_list(g, *e, v->List_0);
            lemma_adopt_adds_items(g, p, *e, v->List_0, v->List_0.len());
        },
        SchemaView::Dict(k, w) => {
            lemma_typed_dict(g, *k, *w, v->Dict_0);
            lemma_adopt_adds_entries(g, p, s, v->Dict_0, v->Dict_0.len());
        },
        SchemaView::Maybe(e) => {
            match v->Maybe_0 {
                Some(inner) => {
                    lemma_adopt_adds(g, p, *e, *inner);
                },
                None => {
                    lemma_adds_none(g, p);
                },
            }
        },
        SchemaView::Record(fields) => {
            lemma_typed_row(g, fields, v->Record_0);
            lemma_adopt_adds_row(g, p, fields, v->Record_0, fields.len());
        },
        SchemaView::Choice(variants) => {
            let fields = variants[v->Choice_0 as int];
            lemma_typed_row(g, fields, v->Choice_1);
            lemma_adopt_adds_row(g, p, fields, v->Choice_1, fields.len());
        },
        SchemaView::Node(inner) => {
            lemma_adopt_adds_node(g, p, *inner, v->Node_0);
        },
        _ => {
            lemma_adds_none(g, p);
        },
    }
}

/// The same values, and then the same values again, are the same values.
pub proof fn lemma_same_twice(g: Graph, g1: Graph, g2: Graph)
    requires
        same_values(g, g1),
        same_values(g1, g2),
    ensures
        same_values(g, g2),
{
    assert forall|x: u32| #[trigger] g.contains_key(x) <==> g2.contains_key(x) by {
        assert(g.contains_key(x) <==> g1.contains_key(x));
        assert(g1.contains_key(x) <==> g2.contains_key(x));
    }
    assert forall|x: u32| #[trigger] g.contains_key(x) implies g[x].schema == g2[x].schema
        && g[x].value == g2[x].value by {
        assert(g1.contains_key(x));
    }
}

/// A walk over the first `n` items of a list leaves the values as they are.
pub proof fn lemma_walked_items_same(
    g: Graph,
    pass: Pass,
    e: SchemaView,
    items: Seq<ValueView>,
    n: nat,
)
    ensures
        same_values(g, walked_items(g, pass, e, items, n)),
    decreases e, 3nat, n,
{
    if n > 0 {
        let g1 = walked_items(g, pass, e, items, (n - 1) as nat);
        lemma_walked_items_same(g, pass, e, items, (n - 1) as nat);
        lemma_walked_same(g1, pass, e, items[n - 1]);
        lemma_same_twice(g, g1, walked(g1, pass, e, items[n - 1]));
    }
}

/// A walk over the first `n` entries of a mapping leaves the values as they
/// are.
pub proof fn lemma_walked_entries_same(
    g: Graph,
    pass: Pass,
    s: SchemaView,
    entries: Seq<(ValueView, ValueView)>,
    n: nat,
)
    ensures
        same_values(g, walked_entries(g, pass, s, entries, n)),
    decreases s, 0nat, n,
{
    match s {
        SchemaView::Dict(k, w) => {
            if n > 0 {
                let g1 = walked_entries(g, pass, s, entries, (n - 1) as nat);
                lemma_walked_entries_same(g, pass, s, entries, (n - 1) as nat);
                lemma_walked_same(g1, pass, *k, entries[n - 1].0);
                let g2 = walked(g1, pass, *k, entries[n - 1].0);
                lemma_same_twice(g, g1, g2);
                lemma_walked_same(g2, pass, *w, entries[n - 1].1);
                lemma_same_twice(g, g2, walked(g2, pass, *w, entries[n - 1].1));
            }
        },
        _ => {},
    }
}

/// A walk over the first `n` members of a row leaves the values as they are.
pub proof fn lemma_walked_row_same(
    g: Graph,
    pass: Pass,
    fields: Seq<FieldView>,
    members: Seq<ValueView>,
    n: nat,
)
    ensures
        same_values(g, walked_row(g, pass, fields, members, n)),
    decreases fields, 0nat, n,
{
    if n > 0 && n <= fields.len() {
        let g1 = walked_row(g, pass, fields, members, (n - 1) as nat);
        lemma_walked_row_same(g, pass, fields, members, (n - 1) as nat);
        lemma_walked_same(g1, pass, fields[n - 1].ty, members[n - 1]);
        lemma_same_twice(g, g1, walked(g1, pass, fields[n - 1].ty, members[n - 1]));
    }
}

/// A walk leaves the values as they are, whatever it walks over.
pub proof fn lemma_walked_same(g: Graph, pass: Pass, s: SchemaView, v: ValueView)
    ensures
        same_values(g, walked(g, pass, s, v)),
    decreases s, 1nat, 0nat,
{
    match (s, v) {
        (SchemaView::List(e), ValueView::List(items)) => {
            lemma_walked_items_same(g, pass, *e, items, items.len());
        },
        (SchemaView::Dict(_, _), ValueView::Dict(entries)) => {
            lemma_walked_entries_same(g, pass, s, entries, entries.len());
        },
        (SchemaView::Maybe(e), ValueView::Maybe(Some(inner))) => {
            lemma_walked_same(g, pass, *e, *inner);
        },
        (SchemaView::Record(fields), ValueView::Record(members)) => {
            if members.len() == fields.len() {
                lemma_walked_row_same(g, pass, fields, members, fields.len());
            }
        },
        (SchemaView::Choice(variants), ValueView::Choice(tag, members)) => {
            if tag < variants.len() && members.len() == variants[tag as int].len() {
                lemma_walked_row_same(g, pass, variants[tag as int], members, members.len());
            }
        },
        (SchemaView::Node(inner), ValueView::Node(id)) => {
            if g.contains_key(id) && g[id].schema == *inner {
                match pass {
                    Pass::Refresh => {
                        let g0 = refresh_one(g, id);
                        assert(same_values(g, g0));
                        lemma_walked_same(g0, Pass::Refresh, *inner, g[id].value);
                        lemma_same_twice(g, g0, walked(g0, Pass::Refresh, *inner, g[id].value));
                    },
                    Pass::Adopt(parent) => {
                        if id != parent {
                            let g0 = with_parent(g, id, parent);
                            assert(same_values(g, g0));
                            lemma_walked_same(g0, Pass::Adopt(id), *inner, g[id].value);
                            lemma_same_twice(
                                g,
                                g0,
                                walked(g0, Pass::Adopt(id), *inner, g[id].value),
                            );
                        }
                    },
                    Pass::Release(parent) => {
                        assert(same_values(g, without_parent(g, id, parent)));
                    },
                }
            }
        },
        _ => {},
    }
}

/// A walk that does not release, over the first `n` items of a list, takes
/// no parent from any node.
pub proof fn lemma_walk_grows_items(
    g: Graph,
    pass: Pass,
    e: SchemaView,
    items: Seq<ValueView>,
    n: nat,
)
    requires
        !(pass is Release),
    ensures
        grows(g, walked_items(g, pass, e, items, n)),
    decreases e, 3nat, n,
{
    if n > 0 {
        let g1 = walked_items(g, pass, e, items, (n - 1) as nat);
        lemma_walk_grows_items(g, pass, e, items, (n - 1) as nat);
        lemma_walk_grows(g1, pass, e, items[n - 1]);
        lemma_grows_twice(g, g1, walked(g1, pass, e, items[n - 1]));
    } else {
        lemma_grows_none(g);
    }
}

/// A walk that does not release, over the first `n` entries of a mapping,
/// takes no parent from any node.
pub proof fn lemma_walk_grows_entries(
    g: Graph,
    pass: Pass,
    s: SchemaView,
    entries: Seq<(ValueView, ValueView)>,
    n: nat,
)
    requires
        !(pass is Release),
    ensures
        grows(g, walked_entries(g, pass, s, entries, n)),
    decreases s, 0nat, n,
{
    match s {
        SchemaView::Dict(k, w) => {
            if n > 0 {
                let g1 = walked_entries(g, pass, s, entries, (n - 1) as nat);
                lemma_walk_grows_entries(g, pass, s, entries, (n - 1) as nat);
                lemma_walk_grows(g1, pass, *k, entries[n - 1].0);
                let g2 = walked(g1, pass, *k, entries[n - 1].0);
                lemma_grows_twice(g, g1, g2);
                lemma_walk_grows(g2, pass, *w, entries[n - 1].1);
                lemma_grows_twice(g, g2, walked(g2, pass, *w, entries[n - 1].1));
            } else {
                lemma_grows_none(g);
            }
        },
        _ => {
            lemma_grows_none(g);
        },
    }
}

/// A walk that does not release, over the first `n` members of a row, takes
/// no parent from any node.
pub proof fn lemma_walk_grows_row(
    g: Graph,
    pass: Pass,
    fields: Seq<FieldView>,
    members: Seq<ValueView>,
    n: nat,
)
    requires
        !(pass is Release),
    ensures
        grows(g, walked_row(g, pass, fields, members, n)),
    decreases fields, 0nat, n,
{
    if n > 0 && n <= fields.len() {
        let g1 = walked_row(g, pass, fields, members, (n - 1) as nat);
        lemma_walk_grows_row(g, pass, fields, members, (n - 1) as nat);
        lemma_walk_grows(g1, pass, fields[n - 1].ty, members[n - 1]);
        lemma_grows_twice(g, g1, walked(g1, pass, fields[n - 1].ty, members[n - 1]));
    } else {
        lemma_grows_none(g);
    }
}

/// No change takes no parent from any node.
pub proof fn lemma_grows_none(g: Graph)
    ensures
        grows(g, g),
{
    assert forall|x: u32| g.contains_key(x) implies #[trigger] keeps_parents(g, g, x) by {}
}

/// A walk that does not release takes no parent from any node and leaves
/// the values as they are, whatever it walks over.
pub proof fn lemma_walk_grows(g: Graph, pass: Pass, s: SchemaView, v: ValueView)
    requires
        !(pass is Release),
    ensures
        grows(g, walked(g, pass, s, v)),
    decreases s, 1nat, 0nat,
{
    lemma_grows_none(g);
    match (s, v) {
        (SchemaView::List(e), ValueView::List(items)) => {
            lemma_walk_grows_items(g, pass, *e, items, items.len());
        },
        (SchemaView::Dict(_, _), ValueView::Dict(entries)) => {
            lemma_walk_grows_entries(g, pass, s, entries, entries.len());
        },
        (SchemaView::Maybe(e), ValueView::Maybe(Some(inner))) => {
            lemma_walk_grows(g, pass, *e, *inner);
        },
        (SchemaView::Record(fields), ValueView::Record(members)) => {
            if members.len() == fields.len() {
                lemma_walk_grows_row(g, pass, fields, members, fields.len());
            }
        },
        (SchemaView::Choice(variants), ValueView::Choice(tag, members)) => {
            if tag < variants.len() && members.len() == variants[tag as int].len() {
                lemma_walk_grows_row(g, pass, variants[tag as int], members, members.len());
            }
        },
        (SchemaView::Node(inner), ValueView::Node(id)) => {
            if g.contains_key(id) && g[id].schema == *inner {
                match pass {
                    Pass::Refresh => {
                        let g0 = refresh_one(g, id);
                        assert(grows(g, g0)) by {
                            assert forall|x: u32| g.contains_key(x) implies #[trigger] keeps_parents(
                                g,
                                g0,
                                x,
                            ) by {}
                        }
                        lemma_walk_grows(g0, Pass::Refresh, *inner, g[id].value);
                        lemma_grows_twice(g, g0, walked(g0, Pass::Refresh, *inner, g[id].value));
                    },
                    Pass::Adopt(parent) => {
                        if id != parent {
                            let g0 = with_parent(g, id, parent);
                            assert(grows(g, g0)) by {
                                assert forall|x: u32| g.contains_key(x) implies #[trigger] keeps_parents(
                                    g,
                                    g0,
                                    x,
                                ) by {}
                            }
                            lemma_walk_grows(g0, Pass::Adopt(id), *inner, g[id].value);
                            lemma_grows_twice(
                                g,
                                g0,
                                walked(g0, Pass::Adopt(id), *inner, g[id].value),
                            );
                        }
                    },
                    Pass::Release(_) => {},
                }
            }
        },
        _ => {},
    }
}

/// A visitor with a current node that is shown a reference to another node
/// leaves its current node among the parents of that node.
pub proof fn lemma_reference_taken_in(g: Graph, p: u32, inner: SchemaView, id: u32)
    requires
        g.contains_key(id),
        g[id].schema == inner,
        id != p,
    ensures
        taken_in(
            g,
            Some(p),
            SchemaView::Node(Box::new(inner)),
            ValueView::Node(id),
        ).contains_key(id),
        taken_in(
            g,
            Some(p),
            SchemaView::Node(Box::new(inner)),
            ValueView::Node(id),
        )[id].parents.contains(p),
        same_values(
            g,
            taken_in(g, Some(p), SchemaView::Node(Box::new(inner)), ValueView::Node(id)),
        ),
{
    let s = SchemaView::Node(Box::new(inner));
    let v = ValueView::Node(id);
    let g0 = with_parent(g, id, p);
    let g1 = walked(g, Pass::Adopt(p), s, v);
    lemma_walk_grows(g0, Pass::Adopt(id), inner, g[id].value);
    assert(g1 == walked(g0, Pass::Adopt(id), inner, g[id].value));
    assert(g0.contains_key(id));
    assert(g0[id].parents.contains(p));
    assert(keeps_parents(g0, g1, id));
    assert(g1.contains_key(id));
    lemma_walk_grows(g1, Pass::Refresh, s, v);
    let g2 = walked(g1, Pass::Refresh, s, v);
    assert(g1.contains_key(id));
    assert(keeps_parents(g1, g2, id));
    lemma_walk_grows(g, Pass::Adopt(p), s, v);
    lemma_grows_twice(g, g1, g2);
}

/// What a visitor with a current node is shown has the current node for a
/// parent afterwards, as far as the value refers to it itself; each node
/// that the value reaches is a parent of what its own value refers to; and
/// no node has lost a parent or changed its value.
pub proof fn lemma_taken_in(g: Graph, p: u32, s: SchemaView, v: ValueView)
    requires
        typed(g, s, v),
        !reach(g, s, v).contains(p),
    ensures
        grows(g, taken_in(g, Some(p), s, v)),
        edges_to(taken_in(g, Some(p), s, v), p, direct(s, v)),
        complete_on(taken_in(g, Some(p), s, v), reach(g, s, v)),
{
    let g1 = walked(g, Pass::Adopt(p), s, v);
    lemma_adopt_links(g, p, s, v);
    lemma_walk_grows(g1, Pass::Refresh, s, v);
    let g2 = walked(g1, Pass::Refresh, s, v);
    lemma_grows_twice(g, g1, g2);
    lemma_grows(g1, g2, p, direct(s, v), reach(g, s, v));
}

/// Adoption and release leave the values as they are.
pub proof fn lemma_below_same(g: Graph, id: u32)
    ensures
        same_values(g, adopted(g, id)),
        same_values(g, released(g, id)),
{
    if g.contains_key(id) {
        let s = g[id].schema;
        let v = g[id].value;
        let a = below(g, Pass::Adopt(id), id);
        lemma_walked_same(g, Pass::Adopt(id), s, v);
        assert(a.contains_key(id));
        lemma_walked_same(a, Pass::Refresh, s, v);
        lemma_same_twice(g, a, adopted(g, id));
        let r = below(g, Pass::Release(id), id);
        lemma_walked_same(g, Pass::Release(id), s, v);
        assert(r.contains_key(id));
        lemma_walked_same(r, Pass::Refresh, s, v);
        lemma_same_twice(g, r, released(g, id));
    }
}

/// Whether the bookkeeping is in order: every node is heard of on just the
/// connections that are due to it, every node's value has the node's shape,
/// and every parent of a node is a node whose value refers to it.
pub open spec fn steady(g: Graph) -> bool {
    settled(g) && well_typed(g) && edges_direct(g)
}

/// Whether `p` is no parent of the node `d`.
pub open spec fn no_edge(g: Graph, d: u32, p: u32) -> bool {
    !g[d].parents.contains(p)
}

/// Whether `p` is no parent of any node.
pub open spec fn childless(g: Graph, p: u32) -> bool {
    forall|d: u32| g.contains_key(d) ==> #[trigger] no_edge(g, d, p)
}

/// Whether the node `x` has in `h` the parents that it has in `g`, but for
/// `p`.
pub open spec fn lost_parent(g: Graph, h: Graph, p: u32, x: u32) -> bool {
    h[x].parents == g[x].parents.remove(p)
}

/// What is due to a node depends only on its root, its parents, and what
/// the parents pass on.
pub proof fn lemma_due_alike(g: Graph, h: Graph, n: u32)
    requires
        h[n].parents == g[n].parents,
        h[n].root == g[n].root,
        forall|p: u32| g[n].parents.contains(p) ==> #[trigger] lent(h, p) == lent(g, p),
    ensures
        due(h, n) == due(g, n),
{
    let parents = g[n].parents;
    assert forall|x: usize| inherited(h, parents).contains(x) <==> inherited(g, parents).contains(
        x,
    ) by {
        if inherited(h, parents).contains(x) {
            let p = choose|p: u32| parents.contains(p) && #[trigger] lent(h, p).contains(x);
            assert(lent(g, p) == lent(h, p));
            assert(lent(g, p).contains(x));
        }
        if inherited(g, parents).contains(x) {
            let p = choose|p: u32| parents.contains(p) && #[trigger] lent(g, p).contains(x);
            assert(lent(h, p) == lent(g, p));
            assert(lent(h, p).contains(x));
        }
    }
    assert(inherited(h, parents) =~= inherited(g, parents));
}

/// Release keeps the bookkeeping in order, and takes the releasing node from
/// the parents of every node: afterwards it is no node's parent, and every
/// node has the other parents that it had.
pub proof fn lemma_released_steady(g: Graph, id: u32)
    requires
        steady(g),
        g.contains_key(id),
    ensures
        steady(released(g, id)),
        same_values(g, released(g, id)),
        childless(released(g, id), id),
        forall|x: u32| g.contains_key(x) ==> #[trigger] lost_parent(g, released(g, id), id, x),
        released(g, id)[id] == g[id],
{
    let s = g[id].schema;
    let v = g[id].value;
    let r = reach(g, s, v);
    let g1 = below(g, Pass::Release(id), id);
    let g2 = released(g, id);
    lemma_direct_within(g);
    lemma_released(g, id);
    assert(typed(g, s, v));
    lemma_release_cuts(g, id, s, v);
    lemma_cuts_same(g, g1, id, direct(s, v));
    lemma_release(g, id, s, v);
    lemma_only_parents(g, g1, r);
    assert(g1.contains_key(id));
    assert(cut_at(g, g1, id, direct(s, v), id));
    lemma_typed_same(g, g1, s, v);
    lemma_refresh(g1, s, v);
    assert(g2 == walked(g1, Pass::Refresh, s, v));
    assert forall|x: u32| #[trigger] g.contains_key(x) <==> g2.contains_key(x) by {
        assert(g.contains_key(x) <==> g1.contains_key(x));
        assert(g1.contains_key(x) <==> g2.contains_key(x));
    }
    assert forall|x: u32| g.contains_key(x) implies #[trigger] lost_parent(g, g2, id, x) by {
        assert(cut_at(g, g1, id, direct(s, v), x));
        assert(g1.contains_key(x));
        assert(alike(g1, g2, x));
        if !direct(s, v).contains(x) {
            assert(edge_direct(g, x, id));
            assert(g[x].parents.remove(id) =~= g[x].parents);
        }
    }
    assert forall|x: u32| #[trigger] g.contains_key(x) implies g[x].schema == g2[x].schema
        && g[x].value == g2[x].value by {
        assert(g1.contains_key(x));
        assert(alike(g1, g2, x));
    }
    assert forall|d: u32| g2.contains_key(d) implies #[trigger] no_edge(g2, d, id) by {
        assert(lost_parent(g, g2, id, d));
    }
    assert(g2[id] == g[id]) by {
        lemma_no_cycle(g, id);
        lemma_direct_reached(g, s, v);
        lemma_reach_same(g, g1, s, v);
        assert(!reach(g1, s, v).contains(id));
        assert(untouched(g1, g2, id));
        assert(cut_at(g, g1, id, direct(s, v), id));
        assert(!direct(s, v).contains(id));
    }
    assert forall|d: u32, q: u32| #[trigger] edge_direct(g2, d, q) by {
        if g2.contains_key(d) && g2[d].parents.contains(q) {
            assert(lost_parent(g, g2, id, d));
            assert(edge_direct(g, d, q));
            assert(g.contains_key(q));
        }
    }
}

/// Adoption keeps the bookkeeping in order; afterwards the adopting node is
/// a parent of every node that its value refers to, and so is each node
/// that its value reaches, and no node has lost a parent.
pub proof fn lemma_adopted_steady(g: Graph, id: u32)
    requires
        steady(g),
        g.contains_key(id),
    ensures
        steady(adopted(g, id)),
        grows(g, adopted(g, id)),
        complete_at(adopted(g, id), id),
        complete_on(adopted(g, id), reach(g, g[id].schema, g[id].value)),
        adopted(g, id)[id] == g[id],
{
    lemma_direct_within(g);
    lemma_adopted(g, id);
    lemma_adopted_links(g, id);
    lemma_adopted_edges(g, id);
    lemma_adopted_self(g, id);
}

/// Another value for a node that is no node's parent keeps the bookkeeping in
/// order, where the value has the node's shape among the other nodes.
pub proof fn lemma_revalued_steady(g: Graph, id: u32, after: ValueView)
    requires
        steady(g),
        g.contains_key(id),
        childless(g, id),
        typed(g.remove(id), g[id].schema, after),
    ensures
        steady(g.insert(id, NodeView { value: after, ..g[id] })),
{
    let h = g.insert(id, NodeView { value: after, ..g[id] });
    assert(part_of(g.remove(id), h));
    lemma_typed_more(g.remove(id), h, g[id].schema, after);
    assert(revalued(g, h, id));
    assert forall|x: u32| #[trigger] h.contains_key(x) implies typed(h, h[x].schema, h[x].value) by {
        if x != id {
            assert(g.contains_key(x));
            lemma_typed_revalued(g, h, id, g[x].schema, g[x].value);
        }
    }
    assert forall|x: u32| h.contains_key(x) implies #[trigger] at_rest(h, x) by {
        assert(g.contains_key(x));
        assert(at_rest(g, x));
        assert forall|p: u32| g[x].parents.contains(p) implies #[trigger] lent(h, p) == lent(g, p) by {}
        lemma_due_alike(g, h, x);
    }
    assert forall|d: u32, q: u32| #[trigger] edge_direct(h, d, q) by {
        if h.contains_key(d) && h[d].parents.contains(q) {
            assert(g.contains_key(d));
            assert(edge_direct(g, d, q));
            assert(no_edge(g, d, id));
        }
    }
}

/// The nodes after the node `id` has released what its value refers to, has
/// got the value `after`, and has adopted what that refers to.
pub open spec fn with_value(g: Graph, id: u32, after: ValueView) -> Graph {
    adopted(released(g, id).insert(id, NodeView { value: after, ..released(g, id)[id] }), id)
}

/// A change to a node's value keeps the bookkeeping in order, made as the
/// library makes it: the node releases what its value refers to, gets its
/// new value, and adopts what that refers to. Afterwards the node is a
/// parent of every node that its new value refers to, and so is each node
/// that the new value reaches.
///
/// The new value has the node's shape among the other nodes.
pub proof fn lemma_changed_steady(g: Graph, id: u32, after: ValueView)
    requires
        steady(g),
        g.contains_key(id),
        typed(released(g, id).remove(id), g[id].schema, after),
    ensures
        steady(with_value(g, id, after)),
        complete_at(with_value(g, id, after), id),
        complete_on(
            with_value(g, id, after),
            reach(with_value(g, id, after), g[id].schema, after),
        ),
        with_value(g, id, after).contains_key(id),
        with_value(g, id, after)[id] == (NodeView { value: after, ..g[id] }),
{
    let g1 = released(g, id);
    lemma_released_steady(g, id);
    assert(g1.contains_key(id));
    let g2 = g1.insert(id, NodeView { value: after, ..g1[id] });
    lemma_revalued_steady(g1, id, after);
    lemma_adopted_steady(g2, id);
    let h = adopted(g2, id);
    assert(h.contains_key(id));
    lemma_reach_same(g2, h, g[id].schema, after);
}

/// A change to a node's value leaves the other nodes parents of what their
/// values refer to: what held of the nodes `done` before the change holds of
/// them afterwards.
pub proof fn lemma_changed_complete(g: Graph, id: u32, after: ValueView, done: Set<u32>)
    requires
        steady(g),
        g.contains_key(id),
        typed(released(g, id).remove(id), g[id].schema, after),
        complete_on(g, done),
    ensures
        complete_on(with_value(g, id, after), done),
{
    let g1 = released(g, id);
    lemma_released_steady(g, id);
    assert(g1.contains_key(id));
    let g2 = g1.insert(id, NodeView { value: after, ..g1[id] });
    lemma_revalued_steady(g1, id, after);
    lemma_adopted_steady(g2, id);
    let h = adopted(g2, id);
    let rest = done.remove(id);
    assert forall|q: u32| rest.contains(q) implies #[trigger] complete_at(g2, q) by {
        assert(complete_at(g, q));
        if g2.contains_key(q) {
            assert(g1.contains_key(q));
            assert(g.contains_key(q));
            let ids = direct(g2[q].schema, g2[q].value);
            assert forall|c: u32| ids.contains(c) implies #[trigger] linked(g2, q, c) by {
                assert(linked(g, q, c));
                if g2.contains_key(c) && c != q {
                    assert(g1.contains_key(c));
                    assert(g.contains_key(c));
                    assert(lost_parent(g, g1, id, c));
                }
            }
        }
    }
    lemma_grows(g2, h, id, Set::empty(), rest);
    assert forall|q: u32| done.contains(q) implies #[trigger] complete_at(h, q) by {
        if q != id {
            assert(rest.contains(q));
        }
    }
}

/// A node that has just been made keeps the bookkeeping in order, where its
/// value has its shape among the nodes that were there.
pub proof fn lemma_created_steady(g: Graph, id: u32, role: Role, s: SchemaView, v: ValueView)
    requires
        steady(g),
        !g.contains_key(id),
        typed(g, s, v),
    ensures
        steady(g.insert(id, fresh_node(id, role, s, v))),
        part_of(g, g.insert(id, fresh_node(id, role, s, v))),
{
    let h = g.insert(id, fresh_node(id, role, s, v));
    assert(part_of(g, h));
    assert forall|x: u32| #[trigger] h.contains_key(x) implies typed(h, h[x].schema, h[x].value) by {
        if x != id {
            assert(g.contains_key(x));
            lemma_typed_more(g, h, g[x].schema, g[x].value);
        } else {
            lemma_typed_more(g, h, s, v);
        }
    }
    assert forall|x: u32| h.contains_key(x) implies #[trigger] at_rest(h, x) by {
        if x != id {
            assert(g.contains_key(x));
            assert(at_rest(g, x));
            assert forall|p: u32| g[x].parents.contains(p) implies #[trigger] lent(h, p) == lent(
                g,
                p,
            ) by {
                assert(edge_direct(g, x, p));
            }
            lemma_due_alike(g, h, x);
        } else {
            assert(inherited(h, Set::<u32>::empty()) =~= Set::<usize>::empty());
            assert(due(h, id) =~= Set::<usize>::empty());
        }
    }
    assert forall|d: u32, q: u32| #[trigger] edge_direct(h, d, q) by {
        if h.contains_key(d) && h[d].parents.contains(q) {
            assert(d != id);
            assert(edge_direct(g, d, q));
        }
    }
}

/// The empty graph is in order.
pub proof fn lemma_empty_steady()
    ensures
        steady(Map::<u32, NodeView>::empty()),
{
    let g = Map::<u32, NodeView>::empty();
    assert forall|d: u32, q: u32| #[trigger] edge_direct(g, d, q) by {}
}

/// A new client keeps the bookkeeping in order: once its root has been made
/// and has adopted what its value refers to, the root and every node that
/// its value reaches hear of the client's connection, and each of them is a
/// parent of what its value refers to. So are the nodes `done`, if they
/// were before.
///
/// The root has its shape, as it must for the client to be taken on, and
/// the id that the root gets is not in use.
pub proof fn lemma_client_added(
    c: ContextView,
    s: SchemaView,
    v: ValueView,
    conn: usize,
    done: Set<u32>,
)
    requires
        steady(c.nodes),
        !c.nodes.contains_key(c.next),
        typed(rooted(c, s, v, conn), SchemaView::Node(Box::new(s)), ValueView::Node(c.next)),
        complete_on(c.nodes, done),
    ensures
        steady(rooted(c, s, v, conn)),
        complete_at(rooted(c, s, v, conn), c.next),
        complete_on(rooted(c, s, v, conn), reach(rooted(c, s, v, conn), s, v)),
        complete_on(rooted(c, s, v, conn), done),
        rooted(c, s, v, conn).contains_key(c.next),
        rooted(c, s, v, conn)[c.next].root == Some(conn),
        rooted(c, s, v, conn)[c.next].value == v,
        rooted(c, s, v, conn)[c.next].conns.contains(conn),
        all_hear(rooted(c, s, v, conn), reach(rooted(c, s, v, conn), s, v), conn),
{
    let id = c.next;
    let g = c.nodes;
    let g1 = g.insert(id, fresh_node(id, c.role, s, v));
    let g2 = with_root(g1, id, conn);
    let h = rooted(c, s, v, conn);
    assert(g2 == g1.insert(
        id,
        NodeView { root: Some(conn), conns: g1[id].conns.insert(conn), ..g1[id] },
    ));
    assert(h == adopted(g2, id));
    assert(same_values(g1, g2));
    lemma_below_same(g2, id);
    lemma_same_twice(g1, g2, h);
    assert(g1.contains_key(id));
    assert(h[id].value == v && h[id].schema == s);
    assert(same_values(h, g1)) by {
        assert forall|x: u32| #[trigger] h.contains_key(x) <==> g1.contains_key(x) by {
            assert(g1.contains_key(x) <==> h.contains_key(x));
        }
        assert forall|x: u32| #[trigger] h.contains_key(x) implies h[x].schema == g1[x].schema
            && h[x].value == g1[x].value by {
            assert(g1.contains_key(x));
        }
    }
    lemma_typed_same(h, g1, s, v);
    lemma_no_cycle(g1, id);
    lemma_typed_less(g1, id, s, v);
    assert(g1.remove(id) =~= g);
    lemma_created_steady(g, id, c.role, s, v);
    lemma_direct_within(g1);
    lemma_rooted(g1, id, conn);
    lemma_rooted_fanout(g1, id, conn);
    lemma_reach_same(g1, h, s, v);
    assert forall|x: u32| #[trigger] g2.contains_key(x) implies typed(
        g2,
        g2[x].schema,
        g2[x].value,
    ) by {
        assert(g1.contains_key(x));
        lemma_typed_same(g1, g2, g1[x].schema, g1[x].value);
    }
    assert forall|d: u32, q: u32| #[trigger] edge_direct(g2, d, q) by {
        assert(edge_direct(g1, d, q));
    }
    lemma_direct_within(g2);
    lemma_only_root(g2, id);
    lemma_adopted_edges(g2, id);
    lemma_adopted_links(g2, id);
    lemma_reach_same(g1, g2, s, v);
    let rest = done.remove(id);
    assert forall|q: u32| rest.contains(q) implies #[trigger] complete_at(g2, q) by {
        assert(complete_at(g, q));
        if g2.contains_key(q) {
            assert(g.contains_key(q));
            let ids = direct(g2[q].schema, g2[q].value);
            lemma_direct_reached(g, g[q].schema, g[q].value);
            lemma_reach_known(g, g[q].schema, g[q].value);
            assert forall|x: u32| ids.contains(x) implies #[trigger] linked(g2, q, x) by {
                assert(linked(g, q, x));
                assert(reach(g, g[q].schema, g[q].value).contains(x));
                assert(g.contains_key(x));
            }
        }
    }
    lemma_grows(g2, h, id, Set::empty(), rest);
    assert forall|q: u32| done.contains(q) implies #[trigger] complete_at(h, q) by {
        if q != id {
            assert(rest.contains(q));
        }
    }
}

/// Adoption leaves the adopting node itself as it is.
pub proof fn lemma_adopted_self(g: Graph, id: u32)
    requires
        well_typed(g),
        edges_within(g),
        g.contains_key(id),
    ensures
        adopted(g, id)[id] == g[id],
{
    let s = g[id].schema;
    let v = g[id].value;
    let r = reach(g, s, v);
    let g1 = below(g, Pass::Adopt(id), id);
    assert(typed(g, s, v));
    lemma_no_cycle(g, id);
    lemma_adopt(g, id, s, v);
    lemma_only_parents(g, g1, r);
    assert(untouched(g, g1, id));
    lemma_typed_same(g, g1, s, v);
    lemma_reach_same(g, g1, s, v);
    lemma_refresh(g1, s, v);
    assert(untouched(g1, below(g1, Pass::Refresh, id), id));
}

/// Adoption leaves every parent of a node a node whose value refers to it.
pub proof fn lemma_adopted_edges(g: Graph, id: u32)
    requires
        well_typed(g),
        edges_direct(g),
        g.contains_key(id),
    ensures
        edges_direct(adopted(g, id)),
        same_values(g, adopted(g, id)),
{
    let s = g[id].schema;
    let v = g[id].value;
    let r = reach(g, s, v);
    let g1 = below(g, Pass::Adopt(id), id);
    let g2 = adopted(g, id);
    lemma_direct_within(g);
    assert(typed(g, s, v));
    lemma_adopt_adds(g, id, s, v);
    lemma_adopt(g, id, s, v);
    lemma_only_parents(g, g1, r);
    assert(g1.contains_key(id));
    lemma_typed_same(g, g1, s, v);
    lemma_refresh(g1, s, v);
    assert(g2 == walked(g1, Pass::Refresh, s, v));
    lemma_reach_known(g, s, v);
    assert forall|x: u32| #[trigger] g.contains_key(x) <==> g2.contains_key(x) by {
        assert(g.contains_key(x) <==> g1.contains_key(x));
        assert(g1.contains_key(x) <==> g2.contains_key(x));
    }
    assert forall|x: u32| #[trigger] g.contains_key(x) implies g[x].schema == g2[x].schema
        && g[x].value == g2[x].value by {
        assert(g1.contains_key(x));
        assert(alike(g1, g2, x));
    }
    assert forall|d: u32, q: u32| #[trigger] edge_direct(g2, d, q) by {
        if g2.contains_key(d) && g2[d].parents.contains(q) {
            assert(g1.contains_key(d));
            assert(alike(g1, g2, d));
            assert(edge_added(g, g1, id, direct(s, v), r, d, q));
            assert(g.contains_key(d));
            if g[d].parents.contains(q) {
                assert(edge_direct(g, d, q));
            }
            assert(g.contains_key(q));
        }
    }
}

/// What one of the first `n` items reaches is among what they reach.
pub proof fn lemma_reach_items_holds(
    g: Graph,
    e: SchemaView,
    items: Seq<ValueView>,
    n: nat,
    i: int,
)
    requires
        0 <= i < n <= items.len(),
    ensures
        reach(g, e, items[i]).subset_of(reach_items(g, e, items, n)),
    decreases n,
{
    if i < n - 1 {
        lemma_reach_items_holds(g, e, items, (n - 1) as nat, i);
    }
}

/// What one of the first `n` entries reaches is among what they reach.
pub proof fn lemma_reach_entries_holds(
    g: Graph,
    s: SchemaView,
    entries: Seq<(ValueView, ValueView)>,
    n: nat,
    i: int,
)
    requires
        s is Dict,
        0 <= i < n <= entries.len(),
    ensures
        reach(g, *s->Dict_0, entries[i].0).subset_of(reach_entries(g, s, entries, n)),
        reach(g, *s->Dict_1, entries[i].1).subset_of(reach_entries(g, s, entries, n)),
    decreases n,
{
    if i < n - 1 {
        lemma_reach_entries_holds(g, s, entries, (n - 1) as nat, i);
    }
}

/// What one of the first `n` members of a row reaches is among what they
/// reach.
pub proof fn lemma_reach_row_holds(
    g: Graph,
    fields: Seq<FieldView>,
    members: Seq<ValueView>,
    n: nat,
    i: int,
)
    requires
        0 <= i < n <= fields.len(),
    ensures
        reach(g, fields[i].ty, members[i]).subset_of(reach_row(g, fields, members, n)),
    decreases n,
{
    if i < n - 1 {
        lemma_reach_row_holds(g, fields, members, (n - 1) as nat, i);
    }
}

/// A row keeps its shapes without a node that it does not reach.
pub proof fn lemma_typed_row_less(g: Graph, id: u32, fields: Seq<FieldView>, members: Seq<ValueView>)
    requires
        typed_row(g, fields, members),
        !reach_row(g, fields, members, fields.len()).contains(id),
    ensures
        typed_row(g.remove(id), fields, members),
    decreases fields, 0nat, 0nat,
{
    let h = g.remove(id);
    lemma_typed_row(g, fields, members);
    lemma_typed_row(h, fields, members);
    assert forall|i: int| 0 <= i < fields.len() implies typed(
        h,
        (#[trigger] fields[i]).ty,
        members[i],
    ) by {
        assert(typed(g, fields[i].ty, members[i]));
        lemma_reach_row_holds(g, fields, members, fields.len(), i);
        lemma_typed_less(g, id, fields[i].ty, members[i]);
    }
}

/// A value keeps its shape without a node that it does not reach.
pub proof fn lemma_typed_less(g: Graph, id: u32, s: SchemaView, v: ValueView)
    requires
        typed(g, s, v),
        !reach(g, s, v).contains(id),
    ensures
        typed(g.remove(id), s, v),
    decreases s, 1nat, 0nat,
{
    let h = g.remove(id);
    match s {
        SchemaView::List(e) => {
            let items = v->List_0;
            lemma_typed_list(g, *e, items);
            lemma_typed_list(h, *e, items);
            assert forall|i: int| 0 <= i < items.len() implies typed(h, *e, #[trigger] items[i]) by {
                assert(typed(g, *e, items[i]));
                lemma_reach_items_holds(g, *e, items, items.len(), i);
                lemma_typed_less(g, id, *e, items[i]);
            }
        },
        SchemaView::Dict(k, w) => {
            let entries = v->Dict_0;
            lemma_typed_dict(g, *k, *w, entries);
            lemma_typed_dict(h, *k, *w, entries);
            assert forall|i: int| 0 <= i < entries.len() implies typed(
                h,
                *k,
                (#[trigger] entries[i]).0,
            ) && typed(h, *w, entries[i].1) by {
                assert(typed(g, *k, entries[i].0) && typed(g, *w, entries[i].1));
                lemma_reach_entries_holds(g, s, entries, entries.len(), i);
                lemma_typed_less(g, id, *k, entries[i].0);
                lemma_typed_less(g, id, *w, entries[i].1);
            }
        },
        SchemaView::Maybe(e) => {
            match v->Maybe_0 {
                Some(inner) => {
                    lemma_typed_less(g, id, *e, *inner);
                },
                None => {},
            }
        },
        SchemaView::Record(fields) => {
            lemma_typed_row_less(g, id, fields, v->Record_0);
        },
        SchemaView::Choice(variants) => {
            lemma_typed_row_less(g, id, variants[v->Choice_0 as int], v->Choice_1);
        },
        SchemaView::Node(inner) => {
            let c = v->Node_0;
            assert(g.contains_key(c));
            assert(reach(g, s, v).contains(c));
            lemma_typed_less(g, id, *inner, g[c].value);
        },
        _ => {},
    }
}

/// Whether the change `c` leaves `target` no longer than a 32-bit count can
/// say, where it is a list or a mapping that the change makes longer.
pub open spec fn has_room(target: ValueView, c: EditView) -> bool {
    match (c, target) {
        (EditView::Push(_), ValueView::List(items)) => items.len() < u32::MAX,
        (EditView::Insert(_, _), ValueView::List(items)) => items.len() < u32::MAX,
        (EditView::Put(_, _), ValueView::Dict(entries)) => entries.len() < u32::MAX,
        _ => true,
    }
}

/// A change to a list that fits the list leaves a list of the same shape.
pub proof fn lemma_list_changed_typed(
    g: Graph,
    e: SchemaView,
    items: Seq<ValueView>,
    c: EditView,
)
    requires
        typed(g, SchemaView::List(Box::new(e)), ValueView::List(items)),
        edit_typed(g, SchemaView::List(Box::new(e)), c),
        has_room(ValueView::List(items), c),
        changed(ValueView::List(items), c) is Ok,
        !(c is Assign),
    ensures
        typed(g, SchemaView::List(Box::new(e)), changed(ValueView::List(items), c)->Ok_0),
{
    lemma_typed_list(g, e, items);
    match c {
        EditView::Push(x) => {
            let after = items.push(x);
            lemma_typed_list(g, e, after);
            assert forall|j: int| 0 <= j < after.len() implies typed(g, e, #[trigger] after[j]) by {
                if j < items.len() {
                    assert(typed(g, e, items[j]));
                }
            }
        },
        EditView::Insert(i, x) => {
            let after = items.insert(i as int, x);
            lemma_typed_list(g, e, after);
            assert forall|j: int| 0 <= j < after.len() implies typed(g, e, #[trigger] after[j]) by {
                if j < i {
                    assert(typed(g, e, items[j]));
                } else if j > i {
                    assert(typed(g, e, items[j - 1]));
                }
            }
        },
        EditView::Remove(i) => {
            let after = items.remove(i as int);
            lemma_typed_list(g, e, after);
            assert forall|j: int| 0 <= j < after.len() implies typed(g, e, #[trigger] after[j]) by {
                if j < i {
                    assert(typed(g, e, items[j]));
                } else {
                    assert(typed(g, e, items[j + 1]));
                }
            }
        },
        EditView::Clear => {
            lemma_typed_list(g, e, Seq::empty());
        },
        _ => {},
    }
}

/// A change to a mapping that fits the mapping leaves a mapping of the same
/// shape, in which no key stands twice.
pub proof fn lemma_dict_changed_typed(
    g: Graph,
    k: SchemaView,
    w: SchemaView,
    entries: Seq<(ValueView, ValueView)>,
    c: EditView,
)
    requires
        typed(g, SchemaView::Dict(Box::new(k), Box::new(w)), ValueView::Dict(entries)),
        edit_typed(g, SchemaView::Dict(Box::new(k), Box::new(w)), c),
        has_room(ValueView::Dict(entries), c),
        changed(ValueView::Dict(entries), c) is Ok,
        !(c is Assign),
    ensures
        typed(
            g,
            SchemaView::Dict(Box::new(k), Box::new(w)),
            changed(ValueView::Dict(entries), c)->Ok_0,
        ),
{
    lemma_typed_dict(g, k, w, entries);
    match c {
        EditView::Put(key, val) => {
            let after = dict_put(entries, key, val);
            lemma_key_index(entries, key, entries.len());
            lemma_typed_dict(g, k, w, after);
            match key_index(entries, key, entries.len()) {
                Some(i) => {
                    assert forall|j: int| 0 <= j < after.len() implies typed(
                        g,
                        k,
                        (#[trigger] after[j]).0,
                    ) && typed(g, w, after[j].1) by {
                        if j != i {
                            assert(typed(g, k, entries[j].0) && typed(g, w, entries[j].1));
                        }
                    }
                    assert forall|a: int, b: int| 0 <= a < b < after.len() implies (
                    #[trigger] after[a]).0 != (#[trigger] after[b]).0 by {
                        assert(after[a].0 == entries[a].0);
                        assert(after[b].0 == entries[b].0);
                    }
                },
                None => {
                    assert forall|j: int| 0 <= j < after.len() implies typed(
                        g,
                        k,
                        (#[trigger] after[j]).0,
                    ) && typed(g, w, after[j].1) by {
                        if j < entries.len() {
                            assert(typed(g, k, entries[j].0) && typed(g, w, entries[j].1));
                        }
                    }
                    assert forall|a: int, b: int| 0 <= a < b < after.len() implies (
                    #[trigger] after[a]).0 != (#[trigger] after[b]).0 by {
                        assert(after[a].0 == entries[a].0);
                        if b < entries.len() {
                            assert(after[b].0 == entries[b].0);
                        }
                    }
                },
            }
        },
        EditView::Cut(key) => {
            let after = dict_cut(entries, key);
            lemma_key_index(entries, key, entries.len());
            lemma_typed_dict(g, k, w, after);
            match key_index(entries, key, entries.len()) {
                Some(i) => {
                    assert forall|j: int| 0 <= j < after.len() implies typed(
                        g,
                        k,
                        (#[trigger] after[j]).0,
                    ) && typed(g, w, after[j].1) by {
                        if j < i {
                            assert(typed(g, k, entries[j].0) && typed(g, w, entries[j].1));
                        } else {
                            assert(typed(g, k, entries[j + 1].0) && typed(g, w, entries[j + 1].1));
                        }
                    }
                    assert forall|a: int, b: int| 0 <= a < b < after.len() implies (
                    #[trigger] after[a]).0 != (#[trigger] after[b]).0 by {
                        let a0 = if a < i {
                            a
                        } else {
                            a + 1
                        };
                        let b0 = if b < i {
                            b
                        } else {
                            b + 1
                        };
                        assert(after[a] == entries[a0]);
                        assert(after[b] == entries[b0]);
                    }
                },
                None => {},
            }
        },
        EditView::Wipe => {
            lemma_typed_dict(g, k, w, Seq::empty());
        },
        _ => {},
    }
}

/// A change that fits a value of some shape leaves a value of that shape,
/// where a list or a mapping that grows had room to grow.
pub proof fn lemma_changed_typed(g: Graph, s: SchemaView, target: ValueView, c: EditView)
    requires
        typed(g, s, target),
        edit_typed(g, s, c),
        has_room(target, c),
        changed(target, c) is Ok,
    ensures
        typed(g, s, changed(target, c)->Ok_0),
{
    match c {
        EditView::Assign(_) => {},
        EditView::Push(_) | EditView::Insert(_, _) | EditView::Remove(_) | EditView::Clear => {
            lemma_list_changed_typed(g, *s->List_0, target->List_0, c);
        },
        _ => {
            lemma_dict_changed_typed(g, *s->Dict_0, *s->Dict_1, target->Dict_0, c);
        },
    }
}

/// Whether the change that the server means to make to the node's value
/// leaves a list or a mapping that grows room to grow.
pub open spec fn update_has_room(
    s: SchemaView,
    v: ValueView,
    op: UpdateOp,
    tag: Seq<char>,
    key: Option<ValueView>,
    val: Option<ValueView>,
) -> bool {
    match target(s, v, op, tag) {
        Ok(Some(t)) => match intended(op, t.value, key, val) {
            Some(c) => has_room(t.value, c),
            None => true,
        },
        _ => true,
    }
}

/// The value after a change that the server has written has the shape that
/// the value had.
pub proof fn lemma_sent_typed(
    g: Graph,
    s: SchemaView,
    v: ValueView,
    op: UpdateOp,
    tag: Seq<char>,
    key: Option<ValueView>,
    val: Option<ValueView>,
)
    requires
        typed(g, s, v),
        update_has_room(s, v, op, tag, key, val),
        sent_update(g, s, v, op, tag, key, val) is Ok,
    ensures
        typed(g, s, sent_update(g, s, v, op, tag, key, val)->Ok_0.1),
{
    match target(s, v, op, tag) {
        Ok(Some(t)) => {
            let c = intended(op, t.value, key, val)->Some_0;
            let after = changed(t.value, c)->Ok_0;
            if whole(s, op) {
                lemma_changed_typed(g, t.schema, t.value, c);
            } else {
                let fields = s->Record_0;
                let members = v->Record_0;
                lemma_hit_bounds(fields, tag, fields.len());
                lemma_typed_row(g, fields, members);
                assert(typed(g, fields[t.index].ty, members[t.index]));
                lemma_changed_typed(g, t.schema, t.value, c);
                let put = members.update(t.index, after);
                lemma_typed_row(g, fields, put);
                assert forall|i: int| 0 <= i < fields.len() implies typed(
                    g,
                    (#[trigger] fields[i]).ty,
                    put[i],
                ) by {
                    if i != t.index {
                        assert(typed(g, fields[i].ty, members[i]));
                    }
                }
            }
        },
        _ => {},
    }
}

/// A change to a member of a node on the server keeps the bookkeeping in
/// order, where a list or a mapping that grows had room to grow. The node
/// is heard of on the connections on which it was heard of before, so that
/// the update goes to just those.
/// Afterwards the node is a parent of every node that its value refers to,
/// and so is each node that its value reaches; and so are the nodes `done`,
/// if they were before.
pub proof fn lemma_update_steady(
    c: ContextView,
    id: u32,
    op: UpdateOp,
    tag: Seq<char>,
    key: Option<ValueView>,
    val: Option<ValueView>,
    done: Set<u32>,
)
    requires
        steady(c.nodes),
        c.nodes.contains_key(id),
        update_has_room(c.nodes[id].schema, c.nodes[id].value, op, tag, key, val),
        member_update(c, id, op, tag, key, val) is Ok,
        complete_on(c.nodes, done),
    ensures
        ({
            let h = member_update(c, id, op, tag, key, val)->Ok_0.0;
            &&& steady(h)
            &&& h.contains_key(id)
            &&& h[id].schema == c.nodes[id].schema
            &&& complete_at(h, id)
            &&& complete_on(h, reach(h, h[id].schema, h[id].value))
            &&& complete_on(h, done)
            &&& h[id].conns == c.nodes[id].conns
            &&& h[id].parents == c.nodes[id].parents
            &&& h[id].root == c.nodes[id].root
        }),
{
    let g = c.nodes;
    let s = g[id].schema;
    let v = g[id].value;
    let g1 = released(g, id);
    lemma_released_steady(g, id);
    assert(g1.contains_key(id));
    assert(g1[id].schema == s && g1[id].value == v);
    assert(typed(g1, s, v));
    lemma_no_cycle(g1, id);
    lemma_typed_less(g1, id, s, v);
    lemma_sent_typed(g1.remove(id), s, v, op, tag, key, val);
    let after = sent_update(g1.remove(id), s, v, op, tag, key, val)->Ok_0.1;
    lemma_changed_steady(g, id, after);
    lemma_changed_complete(g, id, after, done);
}

/// A change that is refused keeps the bookkeeping in order, and leaves
/// every node with the value that it had.
pub proof fn lemma_refused_steady(c: ContextView, id: u32, tag: Seq<char>)
    requires
        steady(c.nodes),
    ensures
        steady(member_refused(c, id, tag)),
        same_values(c.nodes, member_refused(c, id, tag)),
{
    if c.nodes.contains_key(id) {
        let g1 = released(c.nodes, id);
        lemma_released_steady(c.nodes, id);
        assert(g1.contains_key(id));
        lemma_adopted_steady(g1, id);
        lemma_below_same(g1, id);
        lemma_same_twice(c.nodes, g1, adopted(g1, id));
    }
}

/// Whether every node of the context has an id below the next id that is
/// handed out: then the next id is not in use.
pub open spec fn numbered(c: ContextView) -> bool {
    forall|id: u32| #[trigger] c.nodes.contains_key(id) ==> id < c.next
}

/// Ids do not collide: in a context whose ids are all below the next one,
/// the next id is not in use, and a new node, a new client and a change to a
/// member leave all ids below the next one.
pub proof fn lemma_numbered_kept(
    c: ContextView,
    fresh: NodeView,
    s: SchemaView,
    v: ValueView,
    conn: usize,
    id: u32,
    op: UpdateOp,
    tag: Seq<char>,
    key: Option<ValueView>,
    val: Option<ValueView>,
)
    requires
        numbered(c),
    ensures
        !c.nodes.contains_key(c.next),
        c.next < u32::MAX ==> numbered(
            ContextView { nodes: c.nodes.insert(c.next, fresh), next: (c.next + 1) as u32, ..c },
        ),
        c.next < u32::MAX ==> numbered(
            ContextView { nodes: rooted(c, s, v, conn), next: (c.next + 1) as u32, ..c },
        ),
        member_update(c, id, op, tag, key, val) is Ok ==> numbered(
            ContextView { nodes: member_update(c, id, op, tag, key, val)->Ok_0.0, ..c },
        ),
        numbered(ContextView { nodes: member_refused(c, id, tag), ..c }),
{
    if c.nodes.contains_key(c.next) {
        assert(c.next < c.next);
    }
    if c.next < u32::MAX {
        let g1 = c.nodes.insert(c.next, fresh_node(c.next, c.role, s, v));
        let g2 = g1.insert(
            c.next,
            NodeView { root: Some(conn), conns: g1[c.next].conns.insert(conn), ..g1[c.next] },
        );
        lemma_below_same(g2, c.next);
        assert forall|x: u32| #[trigger] rooted(c, s, v, conn).contains_key(x) implies x < c.next
            + 1 by {
            assert(g2.contains_key(x));
            if x != c.next {
                assert(c.nodes.contains_key(x));
            }
        }
    }
    if c.nodes.contains_key(id) {
        let g1 = released(c.nodes, id);
        lemma_below_same(c.nodes, id);
        lemma_below_same(g1, id);
        assert forall|x: u32| #[trigger] member_refused(c, id, tag).contains_key(x) implies x
            < c.next by {
            if member_refused(c, id, tag) != c.nodes {
                assert(g1.contains_key(x));
            }
            assert(c.nodes.contains_key(x));
        }
        if member_update(c, id, op, tag, key, val) is Ok {
            let h = member_update(c, id, op, tag, key, val)->Ok_0.0;
            let g2 = g1.insert(
                id,
                NodeView {
                    value: sent_update(
                        g1.remove(id),
                        g1[id].schema,
                        g1[id].value,
                        op,
                        tag,
                        key,
                        val,
                    )->Ok_0.1,
                    ..g1[id]
                },
            );
            lemma_below_same(g2, id);
            assert forall|x: u32| #[trigger] h.contains_key(x) implies x < c.next by {
                assert(g2.contains_key(x));
                assert(g1.contains_key(x));
                assert(c.nodes.contains_key(x));
            }
        }
    }
}

} // verus!
