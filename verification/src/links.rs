//! Who hears of a node's changes.
//!
//! A node is heard of on the connection whose root it is, and on the
//! connections that hear of the nodes whose values refer to it. The walks
//! here keep that up when references come and go.

use crate::idset::{add_conn, add_conns, add_node, drop_node, lemma_take_ends, lemma_take_to_set};
use crate::node::{graph_of, Book, Content, Graph, NodeView, Role};
use crate::value::{lemma_same_kind, Entry, Field, FieldView, Schema, SchemaView, Value, ValueView};
use std::collections::HashMap;
use vstd::prelude::*;

verus! {

/// The connection of a root, as a set.
pub open spec fn root_set(root: Option<usize>) -> Set<usize> {
    match root {
        Some(c) => set![c],
        None => Set::empty(),
    }
}

/// The connections that the node `p` passes on to the nodes that its value
/// refers to: those that hear of `p`, and the one whose root `p` is.
pub open spec fn lent(g: Graph, p: u32) -> Set<usize> {
    if g.contains_key(p) {
        g[p].conns.union(root_set(g[p].root))
    } else {
        Set::empty()
    }
}

/// The connections that the nodes `parents` pass on.
pub open spec fn inherited(g: Graph, parents: Set<u32>) -> Set<usize> {
    Set::new(|x: usize| exists|p: u32| parents.contains(p) && #[trigger] lent(g, p).contains(x))
}

/// The connections that ought to hear of the node `id`: the one whose root
/// it is, and those that its parents pass on.
pub open spec fn due(g: Graph, id: u32) -> Set<usize> {
    root_set(g[id].root).union(inherited(g, g[id].parents))
}

/// The nodes after the connections of the node `id` have been worked out
/// anew.
pub open spec fn refresh_one(g: Graph, id: u32) -> Graph {
    g.insert(id, NodeView { conns: due(g, id), ..g[id] })
}

/// One more parent passes on what the others pass on and what it passes on
/// itself; no parent passes on nothing.
pub proof fn lemma_inherited(g: Graph, parents: Set<u32>, p: u32)
    ensures
        inherited(g, parents.insert(p)) == inherited(g, parents).union(lent(g, p)),
        inherited(g, Set::empty()) == Set::<usize>::empty(),
{
    assert forall|x: usize| inherited(g, parents.insert(p)).contains(x) <==> inherited(
        g,
        parents,
    ).union(lent(g, p)).contains(x) by {
        if inherited(g, parents.insert(p)).contains(x) {
            let q = choose|q: u32| parents.insert(p).contains(q) && #[trigger] lent(g, q).contains(x);
            if q != p {
                assert(parents.contains(q) && lent(g, q).contains(x));
            }
        }
        if inherited(g, parents).contains(x) {
            let q = choose|q: u32| parents.contains(q) && #[trigger] lent(g, q).contains(x);
            assert(parents.insert(p).contains(q) && lent(g, q).contains(x));
        }
        if lent(g, p).contains(x) {
            assert(parents.insert(p).contains(p) && lent(g, p).contains(x));
        }
    }
    assert(inherited(g, parents.insert(p)) =~= inherited(g, parents).union(lent(g, p)));
    assert(inherited(g, Set::empty()) =~= Set::<usize>::empty());
}

/// Adds to `target` the connections that the node `p` passes on.
pub fn lend(
    contents: &HashMap<u32, Content>,
    books: &HashMap<u32, Book>,
    role: Role,
    p: u32,
    target: &mut Vec<usize>,
)
    ensures
        final(target)@.to_set() == old(target)@.to_set().union(
            lent(graph_of(contents@, books@, role), p),
        ),
{
    let ghost g = graph_of(contents@, books@, role);
    if contents.contains_key(&p) {
        match books.get(&p) {
            Some(book) => {
                add_conns(target, &book.conns);
                match book.root {
                    Some(r) => {
                        add_conn(target, r);
                    },
                    None => {},
                }
                assert(target@.to_set() =~= old(target)@.to_set().union(lent(g, p)));
            },
            None => {
                assert(target@.to_set() =~= old(target)@.to_set().union(lent(g, p)));
            },
        }
    } else {
        assert(target@.to_set() =~= old(target)@.to_set().union(lent(g, p)));
    }
}

/// The connections that ought to hear of the node `id`.
pub fn gather(contents: &HashMap<u32, Content>, books: &HashMap<u32, Book>, role: Role, id: u32) -> (r:
    Vec<usize>)
    requires
        contents@.contains_key(id),
    ensures
        r@.to_set() == due(graph_of(contents@, books@, role), id),
{
    let ghost g = graph_of(contents@, books@, role);
    let mut acc: Vec<usize> = Vec::new();
    assert(acc@.to_set() =~= Set::<usize>::empty());
    proof {
        lemma_inherited(g, Set::empty(), 0);
    }
    match books.get(&id) {
        None => {
            assert(acc@.to_set() =~= due(g, id));
            acc
        },
        Some(book) => {
            match book.root {
                Some(c) => {
                    add_conn(&mut acc, c);
                },
                None => {},
            }
            assert(acc@.to_set() =~= root_set(book.root));
            let mut i: usize = 0;
            proof {
                lemma_take_ends(book.refs@);
            }
            while i < book.refs.len()
                invariant
                    i <= book.refs.len(),
                    g == graph_of(contents@, books@, role),
                    acc@.to_set() == root_set(book.root).union(
                        inherited(g, book.refs@.take(i as int).to_set()),
                    ),
                decreases book.refs.len() - i,
            {
                let p = book.refs[i];
                lend(contents, books, role, p, &mut acc);
                proof {
                    lemma_take_to_set(book.refs@, i as int);
                    lemma_inherited(g, book.refs@.take(i as int).to_set(), p);
                    assert(acc@.to_set() =~= root_set(book.root).union(
                        inherited(g, book.refs@.take(i as int + 1).to_set()),
                    ));
                }
                i = i + 1;
            }
            acc
        },
    }
}

/// Gives the node `id` the connections `conns`.
pub fn set_conns(
    contents: &HashMap<u32, Content>,
    books: &mut HashMap<u32, Book>,
    role: Role,
    id: u32,
    conns: Vec<usize>,
)
    requires
        contents@.contains_key(id),
    ensures
        graph_of(contents@, final(books)@, role) == graph_of(contents@, old(books)@, role).insert(
            id,
            NodeView {
                conns: conns@.to_set(),
                ..graph_of(contents@, old(books)@, role)[id]
            },
        ),
{
    let ghost g = graph_of(contents@, books@, role);
    let book = match books.remove(&id) {
        Some(book) => Book { conns, ..book },
        None => {
            assert(Seq::<u32>::empty().to_set() =~= Set::<u32>::empty());
            Book { role, refs: Vec::new(), conns, root: None, changed: false }
        },
    };
    books.insert(id, book);
    assert(graph_of(contents@, books@, role) =~= g.insert(
        id,
        NodeView { conns: conns@.to_set(), ..g[id] },
    ));
}

/// What a walk over a value does to the nodes that the value refers to.
#[derive(Clone, Copy, Debug, PartialEq, Eq, Structural)]
pub enum Pass {
    /// The connections of each node are worked out anew.
    Refresh,
    /// Each node gets the given node for a parent.
    Adopt(u32),
    /// Each node loses the given node as a parent.
    Release(u32),
}

/// The nodes after `child` has got `parent` for a parent. A node is not
/// made its own parent.
pub open spec fn with_parent(g: Graph, child: u32, parent: u32) -> Graph {
    if g.contains_key(child) && child != parent {
        g.insert(child, NodeView { parents: g[child].parents.insert(parent), ..g[child] })
    } else {
        g
    }
}

/// The nodes after `child` has lost `parent` as a parent.
pub open spec fn without_parent(g: Graph, child: u32, parent: u32) -> Graph {
    if g.contains_key(child) {
        g.insert(child, NodeView { parents: g[child].parents.remove(parent), ..g[child] })
    } else {
        g
    }
}

/// The nodes after a walk over `v`, a value of the shape `s`. The walk
/// comes to the nodes that `v` refers to in the order in which `v` holds
/// them. A reference that leads nowhere, or to a node of another shape, is
/// passed over.
///
/// A refreshing walk works out a node's connections anew and then refreshes
/// what the node's value refers to. An adopting walk gives a node its
/// parent and then adopts what the node's value refers to for the node
/// itself. A releasing walk takes the parent from a node. The last two leave
/// the connections as they are: a refreshing walk follows them.
pub open spec fn walked(g: Graph, pass: Pass, s: SchemaView, v: ValueView) -> Graph
    decreases s, 1nat, 0nat,
{
    match (s, v) {
        (SchemaView::List(e), ValueView::List(items)) => walked_items(
            g,
            pass,
            *e,
            items,
            items.len(),
        ),
        (SchemaView::Dict(_, _), ValueView::Dict(entries)) => walked_entries(
            g,
            pass,
            s,
            entries,
            entries.len(),
        ),
        (SchemaView::Maybe(e), ValueView::Maybe(Some(inner))) => walked(g, pass, *e, *inner),
        (SchemaView::Record(fields), ValueView::Record(members)) => if members.len()
            == fields.len() {
            walked_row(g, pass, fields, members, fields.len())
        } else {
            g
        },
        (SchemaView::Choice(variants), ValueView::Choice(tag, members)) => if tag < variants.len()
            && members.len() == variants[tag as int].len() {
            walked_row(g, pass, variants[tag as int], members, members.len())
        } else {
            g
        },
        (SchemaView::Node(inner), ValueView::Node(id)) => if g.contains_key(id) && g[id].schema
            == *inner {
            match pass {
                Pass::Refresh => walked(refresh_one(g, id), Pass::Refresh, *inner, g[id].value),
                Pass::Adopt(parent) => if id == parent {
                    g
                } else {
                    walked(with_parent(g, id, parent), Pass::Adopt(id), *inner, g[id].value)
                },
                Pass::Release(parent) => without_parent(g, id, parent),
            }
        } else {
            g
        },
        _ => g,
    }
}

/// The nodes after a visitor whose current node is `cur` has been shown
/// `v`, a value of the shape `s`: the current node, if there is one, is the
/// parent of every node that `v` refers to, each of those is the parent of
/// what its own value refers to, and the connections of all of them have
/// been worked out anew.
pub open spec fn taken_in(g: Graph, cur: Option<u32>, s: SchemaView, v: ValueView) -> Graph {
    match cur {
        Some(p) => walked(walked(g, Pass::Adopt(p), s, v), Pass::Refresh, s, v),
        None => g,
    }
}

/// The nodes after a walk over the first `n` of `items`.
pub open spec fn walked_items(g: Graph, pass: Pass, e: SchemaView, items: Seq<ValueView>, n: nat) -> Graph
    decreases e, 2nat, n,
{
    if n == 0 {
        g
    } else {
        walked(walked_items(g, pass, e, items, (n - 1) as nat), pass, e, items[n - 1])
    }
}

/// The nodes after a walk over the first `n` of `entries`.
pub open spec fn walked_entries(
    g: Graph,
    pass: Pass,
    s: SchemaView,
    entries: Seq<(ValueView, ValueView)>,
    n: nat,
) -> Graph
    decreases s, 0nat, n,
{
    match s {
        SchemaView::Dict(k, w) => if n == 0 {
            g
        } else {
            walked(
                walked(
                    walked_entries(g, pass, s, entries, (n - 1) as nat),
                    pass,
                    *k,
                    entries[n - 1].0,
                ),
                pass,
                *w,
                entries[n - 1].1,
            )
        },
        _ => g,
    }
}

/// The nodes after a walk over the first `n` of `members`.
pub open spec fn walked_row(
    g: Graph,
    pass: Pass,
    fields: Seq<FieldView>,
    members: Seq<ValueView>,
    n: nat,
) -> Graph
    decreases fields, 0nat, n,
{
    if n == 0 || n > fields.len() {
        g
    } else {
        walked(
            walked_row(g, pass, fields, members, (n - 1) as nat),
            pass,
            fields[n - 1].ty,
            members[n - 1],
        )
    }
}

/// Gives `child` the node `parent` for a parent.
pub fn link(
    contents: &HashMap<u32, Content>,
    books: &mut HashMap<u32, Book>,
    role: Role,
    child: u32,
    parent: u32,
)
    ensures
        graph_of(contents@, final(books)@, role) == with_parent(
            graph_of(contents@, old(books)@, role),
            child,
            parent,
        ),
{
    let ghost g = graph_of(contents@, books@, role);
    if contents.contains_key(&child) && child != parent {
        let mut book = match books.remove(&child) {
            Some(book) => book,
            None => {
                assert(Seq::<u32>::empty().to_set() =~= Set::<u32>::empty());
                assert(Seq::<usize>::empty().to_set() =~= Set::<usize>::empty());
                Book { role, refs: Vec::new(), conns: Vec::new(), root: None, changed: false }
            },
        };
        add_node(&mut book.refs, parent);
        books.insert(child, book);
        assert(graph_of(contents@, books@, role) =~= with_parent(g, child, parent));
    }
}

/// Takes the parent `parent` from `child`.
pub fn unlink(
    contents: &HashMap<u32, Content>,
    books: &mut HashMap<u32, Book>,
    role: Role,
    child: u32,
    parent: u32,
)
    ensures
        graph_of(contents@, final(books)@, role) == without_parent(
            graph_of(contents@, old(books)@, role),
            child,
            parent,
        ),
{
    let ghost g = graph_of(contents@, books@, role);
    if contents.contains_key(&child) {
        let mut book = match books.remove(&child) {
            Some(book) => book,
            None => {
                assert(Seq::<u32>::empty().to_set() =~= Set::<u32>::empty());
                assert(Seq::<usize>::empty().to_set() =~= Set::<usize>::empty());
                Book { role, refs: Vec::new(), conns: Vec::new(), root: None, changed: false }
            },
        };
        drop_node(&mut book.refs, parent);
        books.insert(child, book);
        assert(graph_of(contents@, books@, role) =~= without_parent(g, child, parent));
    }
}

pub fn walk_items(
    contents: &HashMap<u32, Content>,
    books: &mut HashMap<u32, Book>,
    role: Role,
    pass: Pass,
    e: &Schema,
    items: &Vec<Value>,
)
    ensures
        graph_of(contents@, final(books)@, role) == walked_items(
            graph_of(contents@, old(books)@, role),
            pass,
            e@,
            crate::value::values_view(*items),
            items@.len() as nat,
        ),
    decreases e, 2nat,
{
    let ghost g0 = graph_of(contents@, books@, role);
    let ghost vs = crate::value::values_view(*items);
    let mut i: usize = 0;
    while i < items.len()
        invariant
            i <= items.len(),
            vs == crate::value::values_view(*items),
            graph_of(contents@, books@, role) == walked_items(g0, pass, e@, vs, i as nat),
        decreases items.len() - i,
    {
        walk(contents, books, role, pass, e, &items[i]);
        i = i + 1;
    }
}

pub fn walk_entries(
    contents: &HashMap<u32, Content>,
    books: &mut HashMap<u32, Book>,
    role: Role,
    pass: Pass,
    schema: &Schema,
    entries: &Vec<Entry>,
)
    requires
        schema is Dict,
    ensures
        graph_of(contents@, final(books)@, role) == walked_entries(
            graph_of(contents@, old(books)@, role),
            pass,
            schema@,
            crate::value::entries_view(*entries),
            entries@.len() as nat,
        ),
    decreases schema, 0nat,
{
    let ghost g0 = graph_of(contents@, books@, role);
    let ghost es = crate::value::entries_view(*entries);
    let mut i: usize = 0;
    while i < entries.len()
        invariant
            i <= entries.len(),
            schema is Dict,
            es == crate::value::entries_view(*entries),
            graph_of(contents@, books@, role) == walked_entries(g0, pass, schema@, es, i as nat),
        decreases entries.len() - i,
    {
        if let Schema::Dict(k, w) = schema {
            walk(contents, books, role, pass, k, &entries[i].key);
            walk(contents, books, role, pass, w, &entries[i].val);
        }
        i = i + 1;
    }
}

pub fn walk_row(
    contents: &HashMap<u32, Content>,
    books: &mut HashMap<u32, Book>,
    role: Role,
    pass: Pass,
    fields: &Vec<Field>,
    members: &Vec<Value>,
)
    requires
        members@.len() == fields@.len(),
    ensures
        graph_of(contents@, final(books)@, role) == walked_row(
            graph_of(contents@, old(books)@, role),
            pass,
            crate::value::fields_view(*fields),
            crate::value::values_view(*members),
            fields@.len() as nat,
        ),
    decreases fields, 0nat,
{
    let ghost g0 = graph_of(contents@, books@, role);
    let ghost fs = crate::value::fields_view(*fields);
    let ghost ms = crate::value::values_view(*members);
    let mut i: usize = 0;
    while i < fields.len()
        invariant
            i <= fields.len(),
            members@.len() == fields@.len(),
            fs == crate::value::fields_view(*fields),
            ms == crate::value::values_view(*members),
            graph_of(contents@, books@, role) == walked_row(g0, pass, fs, ms, i as nat),
        decreases fields.len() - i,
    {
        walk(contents, books, role, pass, &fields[i].ty, &members[i]);
        i = i + 1;
    }
}

/// Comes to the node `id`, which a value refers to as a node of the shape
/// `inner`.
pub fn walk_node(
    contents: &HashMap<u32, Content>,
    books: &mut HashMap<u32, Book>,
    role: Role,
    pass: Pass,
    inner: &Schema,
    id: u32,
)
    ensures
        graph_of(contents@, final(books)@, role) == walked(
            graph_of(contents@, old(books)@, role),
            pass,
            SchemaView::Node(Box::new(inner@)),
            ValueView::Node(id),
        ),
    decreases inner, 3nat,
{
    match contents.get(&id) {
        Some(c) => {
            if c.schema.same(inner) {
                match pass {
                    Pass::Refresh => {
                        let conns = gather(contents, books, role, id);
                        set_conns(contents, books, role, id, conns);
                        walk(contents, books, role, Pass::Refresh, inner, &c.val);
                    },
                    Pass::Adopt(parent) => {
                        if id != parent {
                            link(contents, books, role, id, parent);
                            walk(contents, books, role, Pass::Adopt(id), inner, &c.val);
                        }
                    },
                    Pass::Release(parent) => {
                        unlink(contents, books, role, id, parent);
                    },
                }
            }
        },
        None => {},
    }
}

/// Walks over `val`, a value of the shape `schema`.
pub fn walk(
    contents: &HashMap<u32, Content>,
    books: &mut HashMap<u32, Book>,
    role: Role,
    pass: Pass,
    schema: &Schema,
    val: &Value,
)
    ensures
        graph_of(contents@, final(books)@, role) == walked(
            graph_of(contents@, old(books)@, role),
            pass,
            schema@,
            val@,
        ),
    decreases schema, 1nat,
{
    proof {
        lemma_same_kind(*schema, *val);
    }
    match schema {
        Schema::List(e) => match val {
            Value::List(items) => {
                walk_items(contents, books, role, pass, e, items);
            },
            _ => {},
        },
        Schema::Dict(_, _) => match val {
            Value::Dict(entries) => {
                walk_entries(contents, books, role, pass, schema, entries);
            },
            _ => {},
        },
        Schema::Maybe(e) => match val {
            Value::Maybe(Some(inner)) => {
                walk(contents, books, role, pass, e, inner);
            },
            _ => {},
        },
        Schema::Record(fields) => match val {
            Value::Record(members) => {
                if members.len() == fields.len() {
                    walk_row(contents, books, role, pass, fields, members);
                }
            },
            _ => {},
        },
        Schema::Choice(variants) => match val {
            Value::Choice(tag, members) => {
                if (*tag as usize) < variants.len() {
                    assert(schema->Choice_0 == *variants);
                    if members.len() == variants[*tag as usize].len() {
                        walk_row(contents, books, role, pass, &variants[*tag as usize], members);
                    }
                }
            },
            _ => {},
        },
        Schema::Node(inner) => match val {
            Value::Node(id) => {
                walk_node(contents, books, role, pass, inner, *id);
            },
            _ => {},
        },
        _ => {},
    }
}

} // verus!
