use ggnet::encode::Cursor;
use ggnet::node::{NodeContext, TagClient, TagServer};
use ggnet::value::{Entry, Field, Kind, Scalar, Schema, Value};
use ggnet::visitor::deserializer::Deserializer;
use ggnet::visitor::refresher::Refresher;
use ggnet::visitor::serializer::Serializer;
use ggnet::visitor::updater::{UpdateOp, Updater};
use ggnet::{Error, Reflect, Visitor};

fn member(name: &str, ty: Schema) -> Field {
    Field { name: name.to_string(), ty }
}

fn word(s: &str) -> Value {
    Value::Text(s.to_string())
}

fn num(n: u32) -> Value {
    Value::Scalar(Scalar::U32(n))
}

fn nums(items: &[u32]) -> Value {
    Value::List(items.iter().map(|n| num(*n)).collect())
}

fn u32s() -> Schema {
    Schema::List(Box::new(Schema::Scalar(Kind::U32)))
}

fn names() -> Schema {
    Schema::Dict(Box::new(Schema::Text), Box::new(Schema::Scalar(Kind::U32)))
}

/// A record with a list `xs`, a number `n` and a mapping `m`.
fn shape() -> Schema {
    Schema::Record(vec![
        member("xs", u32s()),
        member("n", Schema::Scalar(Kind::U32)),
        member("m", names()),
    ])
}

fn start() -> Value {
    Value::Record(vec![
        nums(&[1, 2]),
        num(9),
        Value::Dict(vec![Entry { key: word("a"), val: num(1) }]),
    ])
}

fn sent(mut u: Updater<Serializer>, v: &mut Value) -> Result<Vec<u8>, Error> {
    let mut ctx = NodeContext::new::<TagServer>();
    v.reflect(&mut ctx, &shape(), &mut u)?;
    Ok(u.unwrap().writer)
}

fn received(mut u: Updater<Deserializer>, v: &mut Value) -> Result<usize, Error> {
    let mut ctx = NodeContext::new::<TagClient>();
    v.reflect(&mut ctx, &shape(), &mut u)?;
    Ok(u.unwrap().reader.available())
}

#[test]
fn the_serializer_goes_on_after_what_was_written() {
    let mut ctx = NodeContext::new::<TagServer>();
    let mut ser = Serializer::new(vec![0xAA]);
    assert_eq!(ser.current_node, None);
    let mut v = start();
    v.reflect(&mut ctx, &shape(), &mut ser).unwrap();
    assert_eq!(
        ser.writer,
        vec![
            0xAA, 0, 0, 0, 2, 0, 0, 0, 1, 0, 0, 0, 2, 0, 0, 0, 9, 0, 0, 0, 1, 0, 0, 0, 1, b'a', 0,
            0, 0, 1
        ]
    );
    assert!(v.same(&start()));
}

#[test]
fn the_serializer_writes_each_member_that_it_is_shown() {
    let mut ctx = NodeContext::new::<TagServer>();
    let mut ser = Serializer::with_current_node(Vec::new(), 4);
    assert_eq!(ser.current_node, Some(4));
    ser.visit(&mut ctx, "n", &Schema::Scalar(Kind::U32), &mut num(258)).unwrap();
    ser.visit(&mut ctx, "t", &Schema::Text, &mut word("ok")).unwrap();
    assert_eq!(ser.writer, vec![0, 0, 1, 2, 0, 0, 0, 2, b'o', b'k']);
    assert_eq!(ser.current_node, Some(4));
}

#[test]
fn the_serializer_refuses_a_value_of_another_shape() {
    let mut ctx = NodeContext::new::<TagServer>();
    let mut ser = Serializer::new(Vec::new());
    let r = ser.visit(&mut ctx, "n", &Schema::Scalar(Kind::U32), &mut word("no"));
    assert!(matches!(r, Err(Error::Custom(_))));
}

#[test]
fn the_deserializer_reads_in_place_of_what_was_there() {
    let mut ctx = NodeContext::new::<TagClient>();
    let mut de = Deserializer::new(Cursor::new(vec![0, 0, 0, 2, 0, 0, 0, 5, 0, 0, 0, 6, 7]));
    assert_eq!(de.current_node, None);
    let mut v = nums(&[]);
    v.reflect(&mut ctx, &u32s(), &mut de).unwrap();
    assert!(v.same(&nums(&[5, 6])));
    assert_eq!(de.reader.available(), 1);
    let mut t = num(0);
    let r = de.visit(&mut ctx, "n", &Schema::Scalar(Kind::U32), &mut t);
    assert!(matches!(r, Err(Error::IOError(_))));
    assert!(t.same(&num(0)));
}

#[test]
fn the_deserializer_keeps_the_context_that_it_was_given() {
    let mut de = Deserializer::with_current_node(Cursor::new(Vec::new()), 3);
    assert_eq!(de.current_node, Some(3));
    let mut ctx = NodeContext::new::<TagClient>();
    ctx.insert(8, Schema::Text, word("kept"));
    de.attach_context(ctx);
    let back = de.context();
    assert!(back.contains(8));
    assert!(de.context.is_none());
}

#[test]
fn what_the_serializer_wrote_the_deserializer_reads() {
    let mut ctx = NodeContext::new::<TagServer>();
    let mut ser = Serializer::new(Vec::new());
    let mut v = start();
    v.reflect(&mut ctx, &shape(), &mut ser).unwrap();
    let mut mine = NodeContext::new::<TagClient>();
    let mut de = Deserializer::new(Cursor::new(ser.writer));
    let mut got = Value::Record(Vec::new());
    got.reflect(&mut mine, &shape(), &mut de).unwrap();
    assert!(got.same(&start()));
    assert_eq!(de.reader.available(), 0);
}

#[test]
fn an_updater_starts_with_what_it_was_made_for() {
    let u = Updater::new_vec_insert(6, Serializer::new(Vec::new()), "xs".to_string(), 1, num(5));
    assert_eq!(u.current_node, 6);
    assert_eq!(u.tag, "xs");
    assert_eq!(u.op, UpdateOp::VecInsert);
    assert_eq!(u.found, 0);
    assert_eq!(u.nest, 0);
    assert!(u.key.as_ref().unwrap().same(&num(1)));
    assert!(u.val.as_ref().unwrap().same(&num(5)));
    let r = Updater::new_replace(2, Serializer::new(Vec::new()));
    assert_eq!(r.op, UpdateOp::Replace);
    assert_eq!(r.tag, "");
    assert!(r.key.is_none() && r.val.is_none());
}

#[test]
fn a_push_is_written_as_the_item_and_made() {
    let mut v = start();
    let u = Updater::new_vec_push(1, Serializer::new(Vec::new()), "xs".to_string(), num(7));
    assert_eq!(sent(u, &mut v).unwrap(), vec![0, 0, 0, 7]);
    assert!(v.same(&Value::Record(vec![
        nums(&[1, 2, 7]),
        num(9),
        Value::Dict(vec![Entry { key: word("a"), val: num(1) }]),
    ])));
}

#[test]
fn an_insert_is_written_as_the_index_and_the_item() {
    let mut v = start();
    let u = Updater::new_vec_insert(1, Serializer::new(Vec::new()), "xs".to_string(), 1, num(7));
    assert_eq!(sent(u, &mut v).unwrap(), vec![0, 0, 0, 1, 0, 0, 0, 7]);
    let Value::Record(members) = &v else { panic!("no record") };
    assert!(members[0].same(&nums(&[1, 7, 2])));
}

#[test]
fn an_insert_beyond_the_end_is_refused() {
    let mut v = start();
    let u = Updater::new_vec_insert(1, Serializer::new(Vec::new()), "xs".to_string(), 3, num(7));
    assert!(matches!(sent(u, &mut v), Err(Error::Custom(_))));
    assert!(v.same(&start()));
    let mut w = start();
    let at_end =
        Updater::new_vec_insert(1, Serializer::new(Vec::new()), "xs".to_string(), 2, num(7));
    sent(at_end, &mut w).unwrap();
    let Value::Record(members) = &w else { panic!("no record") };
    assert!(members[0].same(&nums(&[1, 2, 7])));
}

#[test]
fn a_remove_is_written_as_the_index() {
    let mut v = start();
    let u = Updater::new_vec_remove(1, Serializer::new(Vec::new()), "xs".to_string(), 0);
    assert_eq!(sent(u, &mut v).unwrap(), vec![0, 0, 0, 0]);
    let Value::Record(members) = &v else { panic!("no record") };
    assert!(members[0].same(&nums(&[2])));
    let beyond = Updater::new_vec_remove(1, Serializer::new(Vec::new()), "xs".to_string(), 1);
    assert!(matches!(sent(beyond, &mut v), Err(Error::Custom(_))));
}

#[test]
fn a_clear_is_written_as_nothing() {
    let mut v = start();
    let u = Updater::new_vec_clear(1, Serializer::new(Vec::new()), "xs".to_string());
    assert_eq!(sent(u, &mut v).unwrap(), Vec::<u8>::new());
    let Value::Record(members) = &v else { panic!("no record") };
    assert!(members[0].same(&nums(&[])));
    assert!(members[1].same(&num(9)));
}

#[test]
fn a_mapping_takes_a_new_key_at_the_end_and_a_known_key_in_its_place() {
    let mut v = start();
    let new_key =
        Updater::new_map_insert(1, Serializer::new(Vec::new()), "m".to_string(), word("b"), num(2));
    assert_eq!(sent(new_key, &mut v).unwrap(), vec![0, 0, 0, 1, b'b', 0, 0, 0, 2]);
    let known =
        Updater::new_map_insert(1, Serializer::new(Vec::new()), "m".to_string(), word("a"), num(5));
    sent(known, &mut v).unwrap();
    let Value::Record(members) = &v else { panic!("no record") };
    assert!(members[2].same(&Value::Dict(vec![
        Entry { key: word("a"), val: num(5) },
        Entry { key: word("b"), val: num(2) },
    ])));
}

#[test]
fn a_mapping_loses_a_key_or_all_of_them() {
    let mut v = start();
    let gone = Updater::new_map_remove(1, Serializer::new(Vec::new()), "m".to_string(), word("a"));
    assert_eq!(sent(gone, &mut v).unwrap(), vec![0, 0, 0, 1, b'a']);
    let Value::Record(members) = &v else { panic!("no record") };
    assert!(members[2].same(&Value::Dict(Vec::new())));
    let mut w = start();
    let absent =
        Updater::new_map_remove(1, Serializer::new(Vec::new()), "m".to_string(), word("z"));
    sent(absent, &mut w).unwrap();
    assert!(w.same(&start()));
    let all = Updater::new_map_clear(1, Serializer::new(Vec::new()), "m".to_string());
    assert_eq!(sent(all, &mut w).unwrap(), Vec::<u8>::new());
    let Value::Record(members) = &w else { panic!("no record") };
    assert!(members[2].same(&Value::Dict(Vec::new())));
}

#[test]
fn an_update_of_a_member_writes_the_member_alone() {
    let mut v = start();
    let u = Updater::new_update(1, Serializer::new(Vec::new()), "n".to_string());
    assert_eq!(sent(u, &mut v).unwrap(), vec![0, 0, 0, 9]);
    assert!(v.same(&start()));
    let whole = Updater::new_replace(1, Serializer::new(vec![1]));
    let all = sent(whole, &mut v).unwrap();
    assert_eq!(all.len(), 1 + 29);
    assert_eq!(&all[..5], &[1, 0, 0, 0, 2]);
}

#[test]
fn a_list_change_to_a_number_is_refused() {
    let mut v = start();
    let u = Updater::new_vec_push(1, Serializer::new(Vec::new()), "n".to_string(), num(7));
    assert!(matches!(sent(u, &mut v), Err(Error::Custom(_))));
    let wrong_item =
        Updater::new_vec_push(1, Serializer::new(Vec::new()), "xs".to_string(), word("x"));
    assert!(matches!(sent(wrong_item, &mut v), Err(Error::Custom(_))));
    assert!(v.same(&start()));
}

#[test]
fn the_reading_updater_makes_the_change_that_was_written() {
    let mut theirs = start();
    let u = Updater::new_vec_insert(1, Serializer::new(Vec::new()), "xs".to_string(), 0, num(4));
    let bytes = sent(u, &mut theirs).unwrap();
    let mut mine = start();
    let reader = Updater {
        ser: Deserializer::new(Cursor::new(bytes)),
        tag: "xs".to_string(),
        op: UpdateOp::VecInsert,
        found: 0,
        nest: 0,
        key: None,
        val: None,
        current_node: 1,
        context: None,
    };
    assert_eq!(received(reader, &mut mine).unwrap(), 0);
    assert!(mine.same(&theirs));
}

#[test]
fn the_reading_updater_replaces_a_member_and_leaves_the_others() {
    let mut mine = start();
    let reader = Updater::new_update(1, Deserializer::new(Cursor::new(vec![0, 0, 1, 0])), "n".to_string());
    assert_eq!(received(reader, &mut mine).unwrap(), 0);
    let Value::Record(members) = &mine else { panic!("no record") };
    assert!(members[0].same(&nums(&[1, 2])));
    assert!(members[1].same(&num(256)));
    let short = Updater::new_update(1, Deserializer::new(Cursor::new(vec![0, 0])), "n".to_string());
    assert!(matches!(received(short, &mut mine), Err(Error::IOError(_))));
    let Value::Record(members) = &mine else { panic!("no record") };
    assert!(members[1].same(&num(256)));
}

#[test]
fn an_updater_passes_over_the_members_without_its_tag() {
    let mut ctx = NodeContext::new::<TagServer>();
    let mut u = Updater::new_vec_push(1, Serializer::new(Vec::new()), "xs".to_string(), num(3));
    let mut other = num(1);
    u.visit(&mut ctx, "n", &Schema::Scalar(Kind::U32), &mut other).unwrap();
    assert_eq!(u.found, 0);
    assert!(u.ser.writer.is_empty());
    let mut list = nums(&[]);
    u.visit(&mut ctx, "xs", &u32s(), &mut list).unwrap();
    assert_eq!(u.found, 1);
    assert_eq!(u.ser.writer, vec![0, 0, 0, 3]);
    assert!(list.same(&nums(&[3])));
    let again = u.visit(&mut ctx, "xs", &u32s(), &mut list);
    assert!(matches!(again, Err(Error::Custom(_))));
    assert!(list.same(&nums(&[3])));
}

#[test]
fn an_updater_keeps_the_context_that_it_was_given() {
    let mut u = Updater::new_vec_clear(1, Serializer::new(Vec::new()), "xs".to_string());
    let mut ctx = NodeContext::new::<TagServer>();
    ctx.insert(5, Schema::Text, word("kept"));
    u.attach_context(ctx);
    assert!(u.context.is_some());
    let back = u.context();
    assert!(back.contains(5));
    assert!(u.context.is_none());
}

#[test]
fn the_kinds_of_change_have_their_codes() {
    let all = [
        UpdateOp::Replace,
        UpdateOp::Update,
        UpdateOp::VecPush,
        UpdateOp::VecInsert,
        UpdateOp::VecRemove,
        UpdateOp::VecClear,
        UpdateOp::MapInsert,
        UpdateOp::MapRemove,
        UpdateOp::MapClear,
    ];
    for (i, op) in all.iter().enumerate() {
        assert_eq!(op.code(), i as u8);
        assert_eq!(UpdateOp::from_code(i as u8), Some(*op));
    }
    assert_eq!(UpdateOp::from_code(9), None);
    assert_eq!(UpdateOp::default(), UpdateOp::Replace);
}

#[test]
fn the_refresher_works_out_who_hears_of_a_node() {
    let mut ctx = NodeContext::new::<TagServer>();
    let child = ctx.create(Schema::Text, word("leaf"));
    let link = Schema::Node(Box::new(Schema::Text));
    let parent = ctx.create(link.duplicate(), Value::Node(child));
    ctx.set_root(parent, 7);
    ctx.adopt(parent);
    let mut heard = Vec::new();
    ctx.lend(child, &mut heard);
    assert_eq!(heard, vec![7]);
    // The same walk, through the visitor: nothing changes where all is settled.
    let mut v = Value::Node(child);
    Refresher.visit(&mut ctx, "leaf", &link, &mut v).unwrap();
    v.reflect(&mut ctx, &link, &mut Refresher).unwrap();
    let mut again = Vec::new();
    ctx.lend(child, &mut again);
    assert_eq!(again, vec![7]);
    assert!(v.same(&Value::Node(child)));
}

fn leaf_link() -> Schema {
    Schema::Node(Box::new(Schema::Scalar(Kind::U32)))
}

fn hearers(ctx: &NodeContext, id: u32) -> Vec<usize> {
    let mut to = Vec::new();
    ctx.lend(id, &mut to);
    to.sort();
    to
}

#[test]
fn a_serializer_with_a_current_node_makes_it_the_parent_of_what_it_writes() {
    let mut ctx = NodeContext::new::<TagServer>();
    let child = ctx.create(Schema::Scalar(Kind::U32), num(5));
    let holder = ctx.create(leaf_link(), Value::Node(child));
    ctx.set_root(holder, 4);
    assert_eq!(hearers(&ctx, child), Vec::<usize>::new());
    // Without a current node the context stays as it is.
    let mut plain = Serializer::new(Vec::new());
    plain.visit(&mut ctx, "c", &leaf_link(), &mut Value::Node(child)).unwrap();
    assert_eq!(hearers(&ctx, child), Vec::<usize>::new());
    let mut ser = Serializer::with_current_node(Vec::new(), holder);
    Value::Node(child).reflect(&mut ctx, &leaf_link(), &mut ser).unwrap();
    assert_eq!(ser.writer, vec![0, 0, 0, 1, 0, 0, 0, 5]);
    assert_eq!(hearers(&ctx, child), vec![4]);
    // A value that is refused leaves the context as it is.
    let other = ctx.create(Schema::Scalar(Kind::U32), num(6));
    let mut again = Serializer::with_current_node(Vec::new(), holder);
    let refused = again.visit(&mut ctx, "c", &Schema::Text, &mut Value::Node(other));
    assert!(refused.is_err());
    assert_eq!(hearers(&ctx, other), Vec::<usize>::new());
}

#[test]
fn a_deserializer_with_a_current_node_makes_it_the_parent_of_what_it_reads() {
    let mut ctx = NodeContext::new::<TagClient>();
    ctx.insert(2, leaf_link(), Value::Node(9));
    ctx.set_root(2, 7);
    let mut de = Deserializer::with_current_node(Cursor::new(vec![0, 0, 0, 9, 0, 0, 0, 5]), 2);
    let mut v = Value::Node(0);
    v.reflect(&mut ctx, &leaf_link(), &mut de).unwrap();
    assert!(v.same(&Value::Node(9)));
    assert!(ctx.get(9).unwrap().val.same(&num(5)));
    assert_eq!(hearers(&ctx, 9), vec![7]);
    assert_eq!(de.current_node, Some(2));
    // Without a current node the new node has no parent.
    let mut plain = Deserializer::new(Cursor::new(vec![0, 0, 0, 8, 0, 0, 0, 1]));
    let mut w = Value::Node(0);
    plain.visit(&mut ctx, "n", &leaf_link(), &mut w).unwrap();
    assert!(ctx.contains(8));
    assert_eq!(hearers(&ctx, 8), Vec::<usize>::new());
}

#[test]
fn a_deserializer_reads_among_the_nodes_of_its_context() {
    let mut ctx = NodeContext::new::<TagClient>();
    ctx.insert(2, leaf_link(), Value::Node(9));
    ctx.set_root(2, 7);
    let mut de = Deserializer::with_current_node(
        Cursor::new(vec![0, 0, 0, 9, 0, 0, 0, 5, 0xAB]),
        2,
    );
    de.attach_context(ctx);
    let v = de.read(&leaf_link()).unwrap();
    assert!(v.same(&Value::Node(9)));
    assert_eq!(de.reader.available(), 1);
    assert!(de.read(&leaf_link()).is_err());
    let back = de.context();
    assert!(back.get(9).unwrap().val.same(&num(5)));
    assert_eq!(hearers(&back, 9), vec![7]);
}

#[test]
fn an_updater_works_among_the_nodes_of_its_context() {
    let shape = Schema::Record(vec![member("links", Schema::List(Box::new(leaf_link())))]);
    let mut theirs = NodeContext::new::<TagServer>();
    let child = theirs.create(Schema::Scalar(Kind::U32), num(5));
    let holder = theirs.create(shape.duplicate(), Value::Record(vec![Value::List(Vec::new())]));
    theirs.set_root(holder, 3);
    let mut u = Updater::new_vec_push(
        holder,
        Serializer::new(Vec::new()),
        "links".to_string(),
        Value::Node(child),
    );
    u.attach_context(theirs);
    let mut value = Value::Record(vec![Value::List(Vec::new())]);
    u.send(&shape, &mut value).unwrap();
    assert!(value.same(&Value::Record(vec![Value::List(vec![Value::Node(child)])])));
    let theirs = u.context();
    assert_eq!(hearers(&theirs, child), vec![3]);
    let bytes = u.unwrap().writer;
    assert_eq!(bytes, vec![0, 0, 0, 1, 0, 0, 0, 5]);

    let mut mine = NodeContext::new::<TagClient>();
    mine.insert(holder, shape.duplicate(), Value::Record(vec![Value::List(Vec::new())]));
    mine.set_root(holder, 1);
    let mut r = Updater::new_vec_push(
        holder,
        Deserializer::new(Cursor::new(bytes)),
        "links".to_string(),
        num(0),
    );
    r.attach_context(mine);
    let mut copy = Value::Record(vec![Value::List(Vec::new())]);
    r.apply(&shape, &mut copy).unwrap();
    assert!(copy.same(&value));
    assert_eq!(r.ser.reader.available(), 0);
    let mine = r.context();
    assert!(mine.get(child).unwrap().val.same(&num(5)));
    assert_eq!(hearers(&mine, child), vec![1]);
}

#[test]
fn an_updater_without_a_current_node_records_no_parent() {
    let shape = Schema::Record(vec![member("links", Schema::List(Box::new(leaf_link())))]);
    let mut ctx = NodeContext::new::<TagServer>();
    let child = ctx.create(Schema::Scalar(Kind::U32), num(5));
    let holder = ctx.create(shape.duplicate(), Value::Record(vec![Value::List(Vec::new())]));
    ctx.set_root(holder, 3);
    let mut u =
        Updater::new_vec_push(0, Serializer::new(Vec::new()), "links".to_string(), Value::Node(child));
    let mut value = Value::Record(vec![Value::List(Vec::new())]);
    value.reflect(&mut ctx, &shape, &mut u).unwrap();
    assert_eq!(hearers(&ctx, child), Vec::<usize>::new());
}

#[test]
fn an_updater_keeps_its_key_and_value_over_other_members() {
    let mut ctx = NodeContext::new::<TagServer>();
    let mut u = Updater::new_map_insert(
        1,
        Serializer::new(Vec::new()),
        "m".to_string(),
        word("k"),
        num(2),
    );
    u.visit(&mut ctx, "n", &Schema::Scalar(Kind::U32), &mut num(1)).unwrap();
    assert!(u.key.as_ref().unwrap().same(&word("k")));
    assert!(u.val.as_ref().unwrap().same(&num(2)));
    let mut map = Value::Dict(Vec::new());
    u.visit(&mut ctx, "m", &names(), &mut map).unwrap();
    assert!(map.same(&Value::Dict(vec![Entry { key: word("k"), val: num(2) }])));
}

#[test]
fn a_change_to_a_list_that_is_no_member_is_made_to_the_list() {
    let words = Schema::List(Box::new(Schema::Text));
    let mut ctx = NodeContext::new::<TagClient>();
    let mut v = Value::List(vec![word("a")]);
    let mut u = Updater {
        ser: Deserializer::new(Cursor::new(vec![0, 0, 0, 2, b'h', b'i'])),
        tag: "xs".to_string(),
        op: UpdateOp::VecPush,
        found: 0,
        nest: 0,
        key: None,
        val: None,
        current_node: 1,
        context: None,
    };
    v.reflect(&mut ctx, &words, &mut u).unwrap();
    assert!(v.same(&Value::List(vec![word("a"), word("hi")])));
    assert_eq!(u.ser.reader.offset(), 6);
    assert_eq!(u.ser.reader.available(), 0);
    // The writing side: the item is written and the list grows.
    let mut server = NodeContext::new::<TagServer>();
    let mut w = Value::List(vec![word("a")]);
    let mut s = Updater::new_vec_push(1, Serializer::new(Vec::new()), "xs".to_string(), word("hi"));
    w.reflect(&mut server, &words, &mut s).unwrap();
    assert_eq!(s.unwrap().writer, vec![0, 0, 0, 2, b'h', b'i']);
    assert!(w.same(&v));
    // A change of another kind does not fit a list.
    let mut m = Updater::new_map_clear(1, Serializer::new(Vec::new()), "xs".to_string());
    assert!(matches!(w.reflect(&mut server, &words, &mut m), Err(Error::Custom(_))));
    assert!(w.same(&v));
}

#[test]
fn an_enum_member_is_replaced_with_its_payload_and_the_update_is_read_to_its_end() {
    // A state that is `VersionCheck` or `Exit` with a text.
    let state = Schema::Choice(vec![Vec::new(), vec![member("0", Schema::Text)]]);
    let shape = Schema::Record(vec![member("state", state)]);
    let mut ctx = NodeContext::new::<TagClient>();
    let mut v = Value::Record(vec![Value::Choice(0, Vec::new())]);
    let mut msg = Cursor::new(vec![
        1, 0, 0, 0, 5, b's', b't', b'a', b't', b'e', 1, 0, 0, 0, 4, b'd', b'o', b'n', b'e',
    ]);
    ggnet::visitor::updater::CallUpdate::call_upd(&mut v, &mut ctx, &shape, 0, &mut msg).unwrap();
    assert!(v.same(&Value::Record(vec![Value::Choice(1, vec![word("done")])])));
    assert_eq!(msg.available(), 0);
}
