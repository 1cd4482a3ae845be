use ggnet::encode::Cursor;
use ggnet::node::{NewNode, Node, NodeBase, NodeContext, Role, TagAgnostic, TagServer};
use ggnet::value::{Kind, Scalar, Schema, Value};

fn leaf() -> Schema {
    Schema::Scalar(Kind::U32)
}

fn link() -> Schema {
    Schema::Node(Box::new(leaf()))
}

fn n(x: u32) -> Value {
    Value::Scalar(Scalar::U32(x))
}

fn heard(ctx: &NodeContext, id: u32) -> Vec<usize> {
    let mut to = Vec::new();
    ctx.lend(id, &mut to);
    to.sort();
    to
}

fn sent_to(ctx: &mut NodeContext, id: u32) -> Vec<usize> {
    ctx.send(id, &vec![1, 2, 3]);
    let mut to: Vec<usize> = ctx.take_outbox().iter().map(|e| e.conn).collect();
    to.sort();
    to
}

#[test]
fn ids_are_given_out_from_one_upwards() {
    let mut ctx = NodeContext::new::<TagServer>();
    assert_eq!(ctx.role(), Role::Server);
    assert!(ctx.is_empty());
    assert_eq!(ctx.next_id(), 1);
    assert_eq!(ctx.create(leaf(), n(1)), 1);
    assert_eq!(ctx.create(leaf(), n(2)), 2);
    assert_eq!(ctx.next_id(), 3);
    assert!(ctx.contains(1) && ctx.contains(2) && !ctx.contains(3));
    assert!(ctx.get(2).unwrap().val.same(&n(2)));
    assert!(ctx.get(3).is_none());
}

#[test]
fn a_child_hears_what_its_parent_passes_on() {
    let mut ctx = NodeContext::new::<TagServer>();
    let child = ctx.create(leaf(), n(0));
    let parent = ctx.create(link(), Value::Node(child));
    ctx.set_root(parent, 4);
    assert_eq!(heard(&ctx, child), Vec::<usize>::new());
    ctx.add_ref(child, parent);
    assert_eq!(heard(&ctx, child), vec![4]);
    assert_eq!(sent_to(&mut ctx, child), vec![4]);
    ctx.remove_ref(child, parent);
    assert_eq!(heard(&ctx, child), Vec::<usize>::new());
    assert_eq!(sent_to(&mut ctx, child), Vec::<usize>::new());
}

#[test]
fn a_child_of_two_roots_hears_both_until_one_lets_go() {
    let mut ctx = NodeContext::new::<TagServer>();
    let child = ctx.create(leaf(), n(0));
    let one = ctx.create(link(), Value::Node(child));
    let two = ctx.create(link(), Value::Node(child));
    ctx.set_root(one, 1);
    ctx.set_root(two, 2);
    ctx.adopt(one);
    ctx.adopt(two);
    assert_eq!(heard(&ctx, child), vec![1, 2]);
    assert_eq!(sent_to(&mut ctx, child), vec![1, 2]);
    ctx.release(one);
    assert_eq!(heard(&ctx, child), vec![2]);
    ctx.release(two);
    assert_eq!(heard(&ctx, child), Vec::<usize>::new());
}

#[test]
fn what_a_parent_hears_goes_on_to_the_children_of_its_children() {
    let mut ctx = NodeContext::new::<TagServer>();
    let low = ctx.create(leaf(), n(0));
    let mid = ctx.create(link(), Value::Node(low));
    let top = ctx.create(Schema::Node(Box::new(link())), Value::Node(mid));
    ctx.adopt(top);
    assert_eq!(heard(&ctx, low), Vec::<usize>::new());
    ctx.set_root(top, 9);
    ctx.refresh(top);
    assert_eq!(heard(&ctx, mid), vec![9]);
    assert_eq!(heard(&ctx, low), vec![9]);
}

#[test]
fn a_node_is_not_made_its_own_parent() {
    let mut ctx = NodeContext::new::<TagServer>();
    let id = ctx.next_id();
    let made = ctx.create(link(), Value::Node(id));
    assert_eq!(made, id);
    ctx.set_root(id, 3);
    ctx.add_ref(id, id);
    ctx.adopt(id);
    assert_eq!(heard(&ctx, id), vec![3]);
}

#[test]
fn a_node_that_is_taken_out_comes_back_with_its_new_value() {
    let mut ctx = NodeContext::new::<TagServer>();
    let a = ctx.create(leaf(), n(1));
    let b = ctx.create(leaf(), n(2));
    let holder = ctx.create(link(), Value::Node(a));
    ctx.set_root(holder, 5);
    ctx.adopt(holder);
    assert_eq!(heard(&ctx, a), vec![5]);
    let mut out = ctx.lock(holder).unwrap();
    assert!(!ctx.contains(holder));
    assert_eq!(out.id(), holder);
    assert!(out.schema().same(&link()));
    assert!(out.value().same(&Value::Node(a)));
    *out.value_mut() = Value::Node(b);
    ctx.unlock(out);
    assert!(ctx.borrow(holder).unwrap().x.val.same(&Value::Node(b)));
    assert_eq!(heard(&ctx, a), Vec::<usize>::new());
    assert_eq!(heard(&ctx, b), vec![5]);
    assert!(ctx.lock(77).is_none());
}

#[test]
fn a_node_that_was_collected_is_gone() {
    let mut ctx = NodeContext::new::<TagServer>();
    let id = ctx.create(leaf(), n(1));
    ctx.set_root(id, 1);
    ctx.gc(id);
    assert!(!ctx.contains(id));
    assert!(ctx.borrow(id).is_none());
    assert_eq!(sent_to(&mut ctx, id), Vec::<usize>::new());
    assert_eq!(ctx.next_id(), 2);
}

#[test]
fn the_outbox_holds_one_packet_for_each_connection_until_it_is_taken() {
    let mut ctx = NodeContext::new::<TagServer>();
    let id = ctx.create(leaf(), n(1));
    ctx.set_root(id, 6);
    ctx.send(id, &vec![9, 8]);
    ctx.send(id, &vec![7]);
    let out = ctx.take_outbox();
    assert_eq!(out.len(), 2);
    assert_eq!(out[0].conn, 6);
    assert_eq!(out[0].packet.node, id);
    assert_eq!(out[0].packet.magic, 0x12345678);
    assert_eq!(out[0].packet.data, vec![9, 8]);
    assert_eq!(out[1].packet.data, vec![7]);
    assert!(ctx.take_outbox().is_empty());
}

#[test]
fn a_handle_stands_for_the_node_with_its_id() {
    let mut ctx = NodeContext::new::<TagServer>();
    let node = <Node as NewNode>::new(12, leaf(), n(3), &mut ctx);
    assert_eq!(NodeBase::id(&node), 12);
    assert!(node.as_ref(&ctx).unwrap().x.val.same(&n(3)));
    NewNode::set_root(&node, &mut ctx, 2);
    let mut to = Vec::new();
    node.add_connections(&ctx, &mut to);
    assert_eq!(to, vec![2]);
    node.send(&mut ctx, &vec![5]);
    assert_eq!(ctx.take_outbox().len(), 1);
    let still = node.convert::<TagServer>(&ctx);
    assert_eq!(still.id, 12);
    let scratch = NodeContext::new::<TagAgnostic>();
    assert_eq!(still.convert::<TagAgnostic>(&scratch).id, 12);
    assert!(!still.changed(&mut ctx));
    let none = Node::default();
    assert_eq!(none.id, 0);
    assert!(none.as_ref(&ctx).is_none());
}

#[test]
fn a_handle_makes_nodes_in_the_context_of_its_server() {
    let mut ctx = NodeContext::new::<TagServer>();
    let first = Node::default().make_node(&mut ctx, leaf(), n(1));
    let second = first.make_node(&mut ctx, link(), Value::Node(first.id));
    assert_eq!((first.id, second.id), (1, 2));
    second.add_ref(&mut ctx, 0);
    NodeBase::add_ref(&first, &mut ctx, second.id);
    NewNode::set_root(&second, &mut ctx, 8);
    ctx.refresh(second.id);
    assert_eq!(heard(&ctx, first.id), vec![8]);
    NodeBase::remove_ref(&first, &mut ctx, second.id);
    assert_eq!(heard(&ctx, first.id), Vec::<usize>::new());
}

#[test]
fn a_handle_remembers_the_parent_that_holds_it_and_lets_go_of_it() {
    let mut ctx = NodeContext::new::<TagServer>();
    let child = Node::default().make_node(&mut ctx, leaf(), n(1));
    let parent = child.make_node(&mut ctx, link(), Value::Node(child.id));
    NewNode::set_root(&parent, &mut ctx, 6);
    let held = child.held_by(&mut ctx, parent.id);
    assert_eq!(held.id, child.id);
    assert_eq!(held.owner, Some(parent.id));
    assert_eq!(heard(&ctx, child.id), vec![6]);
    held.let_go(&mut ctx);
    assert_eq!(heard(&ctx, child.id), Vec::<usize>::new());
    // A handle that no value holds lets go of nothing.
    let again = child.held_by(&mut ctx, parent.id);
    child.let_go(&mut ctx);
    assert_eq!(heard(&ctx, again.id), vec![6]);
}

#[test]
fn a_new_node_gets_an_id_above_zero_that_is_not_in_use() {
    let mut ctx = NodeContext::new::<TagServer>();
    ctx.insert(5, leaf(), n(0));
    let first = ctx.create(leaf(), n(1));
    assert_eq!(first, 1);
    assert!(first > 0);
    assert!(ctx.get(5).unwrap().val.same(&n(0)));
    assert!(!ctx.contains(ctx.next_id()));
}

#[test]
fn an_update_is_read_to_its_end() {
    let shape = Schema::Record(vec![ggnet::value::Field {
        name: "xs".to_string(),
        ty: Schema::List(Box::new(leaf())),
    }]);
    let mut ctx = NodeContext::new::<ggnet::node::TagClient>();
    let node = <Node as NewNode>::new(3, shape, Value::Record(vec![Value::List(vec![])]), &mut ctx);
    // A push of 7 under the tag "xs", and one byte that is not part of it.
    let mut msg = Cursor::new(vec![2, 0, 0, 0, 2, b'x', b's', 0, 0, 0, 7, 0xEE]);
    node.recv_update(&mut ctx, &mut msg).unwrap();
    assert_eq!(msg.available(), 1);
    assert!(node
        .as_ref(&ctx)
        .unwrap()
        .x
        .val
        .same(&Value::Record(vec![Value::List(vec![n(7)])])));
    assert!(node.changed(&mut ctx));
}
