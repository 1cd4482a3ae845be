use ggnet::connection::Connection;
use ggnet::encode::{append, count, Cursor};
use ggnet::idset::{add_conn, add_conns, add_node, drop_node, has_conn, has_node};
use ggnet::node::{NodeContext, TagAgnostic, TagClient, TagServer};
use ggnet::rpc::{find_procedure, read_call, write_call, Procedure};
use ggnet::server::Server;
use ggnet::value::{
    duplicate_fields, find_key, keys_distinct, same_fields, same_values, Entry, Field, Kind, Scalar,
    Schema, Value,
};
use ggnet::visitor::updater::{
    apply_edit, find_tag, locate, plan, read_edit, recv_update, send_update, write_edit,
    write_header, Edit, UpdateOp,
};
use ggnet::Error;

fn arg(name: &str, ty: Schema) -> Field {
    Field { name: name.to_string(), ty }
}

fn txt(s: &str) -> Value {
    Value::Text(s.to_string())
}

fn number(n: u32) -> Value {
    Value::Scalar(Scalar::U32(n))
}

fn numbers(items: &[u32]) -> Value {
    Value::List(items.iter().map(|n| number(*n)).collect())
}

fn number_list() -> Schema {
    Schema::List(Box::new(Schema::Scalar(Kind::U32)))
}

fn table() -> Vec<Procedure> {
    vec![
        Procedure { name: "chat".to_string(), args: vec![arg("msg", Schema::Text)] },
        Procedure {
            name: "move".to_string(),
            args: vec![arg("x", Schema::Scalar(Kind::U32)), arg("y", Schema::Scalar(Kind::U32))],
        },
        Procedure { name: "chat".to_string(), args: Vec::new() },
    ]
}

#[test]
fn a_set_of_ids_holds_each_id_once() {
    let mut nodes: Vec<u32> = Vec::new();
    add_node(&mut nodes, 3);
    add_node(&mut nodes, 5);
    add_node(&mut nodes, 3);
    assert_eq!(nodes, vec![3, 5]);
    assert!(has_node(&nodes, 5) && !has_node(&nodes, 4));
    drop_node(&mut nodes, 3);
    drop_node(&mut nodes, 9);
    assert_eq!(nodes, vec![5]);
    let mut conns: Vec<usize> = Vec::new();
    add_conn(&mut conns, 2);
    add_conn(&mut conns, 2);
    add_conns(&mut conns, &vec![1, 2, 4, 1]);
    assert_eq!(conns, vec![2, 1, 4]);
    assert!(has_conn(&conns, 4) && !has_conn(&conns, 3));
}

#[test]
fn bytes_are_appended_and_counted() {
    let mut out = vec![1u8];
    append(&mut out, &[2, 3]);
    append(&mut out, &[]);
    assert_eq!(out, vec![1, 2, 3]);
    assert_eq!(count(0), 0);
    assert_eq!(count(70_000), 70_000);
}

#[test]
fn rows_are_compared_and_copied_member_by_member() {
    let a = vec![arg("x", Schema::Text), arg("y", number_list())];
    let b = duplicate_fields(&a);
    assert!(same_fields(&a, &b));
    assert!(!same_fields(&a, &vec![arg("x", Schema::Text)]));
    assert!(!same_fields(&a, &vec![arg("x", Schema::Text), arg("z", number_list())]));
    assert!(same_values(&vec![number(1), txt("a")], &vec![number(1), txt("a")]));
    assert!(!same_values(&vec![number(1), txt("a")], &vec![number(1), txt("b")]));
    assert!(!same_values(&vec![number(1)], &vec![number(1), number(1)]));
}

#[test]
fn a_key_is_found_where_it_first_stands() {
    let entries = vec![
        Entry { key: txt("a"), val: number(1) },
        Entry { key: txt("b"), val: number(2) },
        Entry { key: txt("a"), val: number(3) },
    ];
    assert_eq!(find_key(&entries, &txt("a")), Some(0));
    assert_eq!(find_key(&entries, &txt("b")), Some(1));
    assert_eq!(find_key(&entries, &txt("c")), None);
    assert!(!keys_distinct(&entries));
    let two = vec![Entry { key: txt("a"), val: number(1) }, Entry { key: txt("b"), val: number(1) }];
    assert!(keys_distinct(&two));
    assert!(keys_distinct(&Vec::new()));
}

#[test]
fn a_procedure_is_found_by_its_name_in_the_first_place_that_has_it() {
    let procedures = table();
    assert_eq!(find_procedure(&procedures, &"chat".to_string()), Some(0));
    assert_eq!(find_procedure(&procedures, &"move".to_string()), Some(1));
    assert_eq!(find_procedure(&procedures, &"stop".to_string()), None);
    assert_eq!(find_procedure(&Vec::new(), &"chat".to_string()), None);
}

#[test]
fn a_call_is_the_name_and_then_the_arguments() {
    let procedures = table();
    let mut out = vec![0xEE];
    write_call(&mut out, &procedures[1], &vec![number(3), number(260)]).unwrap();
    assert_eq!(
        out,
        vec![0xEE, 0, 0, 0, 4, b'm', b'o', b'v', b'e', 0, 0, 0, 3, 0, 0, 1, 4]
    );
    let mut cur = Cursor::new(out[1..].to_vec());
    let call = read_call(&mut cur, &procedures, 7).unwrap();
    assert_eq!(call.node, 7);
    assert_eq!(call.index, 1);
    assert_eq!(call.name, "move");
    assert!(same_values(&call.args, &vec![number(3), number(260)]));
    assert_eq!(cur.available(), 0);
}

#[test]
fn a_call_with_the_wrong_arguments_is_not_written() {
    let procedures = table();
    let mut out = Vec::new();
    let too_few = write_call(&mut out, &procedures[1], &vec![number(3)]);
    assert!(matches!(too_few, Err(Error::Custom(_))));
    let wrong_shape = write_call(&mut Vec::new(), &procedures[0], &vec![number(3)]);
    assert!(matches!(wrong_shape, Err(Error::Custom(_))));
}

#[test]
fn a_call_that_is_cut_short_or_not_known_is_refused() {
    let procedures = table();
    let mut unknown = Cursor::new(vec![0, 0, 0, 2, b'n', b'o']);
    assert!(matches!(read_call(&mut unknown, &procedures, 1), Err(Error::Custom(_))));
    let mut short = Cursor::new(vec![0, 0, 0, 4, b'm', b'o', b'v', b'e', 0, 0, 0, 3, 0, 0]);
    assert!(matches!(read_call(&mut short, &procedures, 1), Err(Error::IOError(_))));
    let mut no_name = Cursor::new(vec![0, 0, 0, 1, 0xFF]);
    assert!(matches!(read_call(&mut no_name, &procedures, 1), Err(Error::UTFError(_))));
}

#[test]
fn a_call_may_not_bring_nodes_with_it() {
    let procedures =
        vec![Procedure { name: "f".to_string(), args: vec![arg("n", Schema::Node(Box::new(Schema::Text)))] }];
    // A reference to the node 5 with its value "hi".
    let bytes = vec![0, 0, 0, 1, b'f', 0, 0, 0, 5, 0, 0, 0, 2, b'h', b'i'];
    let mut cur = Cursor::new(bytes);
    assert!(matches!(read_call(&mut cur, &procedures, 1), Err(Error::Custom(_))));
}

#[test]
fn a_kind_a_key_and_a_value_stand_for_a_change() {
    assert!(plan(UpdateOp::Replace, None, Some(number(1))).is_none());
    assert!(plan(UpdateOp::Update, None, None).is_none());
    assert!(matches!(plan(UpdateOp::VecPush, None, Some(number(1))), Some(Edit::Push(_))));
    assert!(plan(UpdateOp::VecPush, None, None).is_none());
    assert!(matches!(
        plan(UpdateOp::VecInsert, Some(number(4)), Some(number(1))),
        Some(Edit::Insert(4, _))
    ));
    assert!(plan(UpdateOp::VecInsert, Some(txt("4")), Some(number(1))).is_none());
    assert!(matches!(plan(UpdateOp::VecRemove, Some(number(2)), None), Some(Edit::Remove(2))));
    assert!(plan(UpdateOp::VecRemove, None, None).is_none());
    assert!(matches!(plan(UpdateOp::VecClear, None, None), Some(Edit::Clear)));
    assert!(matches!(plan(UpdateOp::MapInsert, Some(txt("k")), Some(number(1))), Some(Edit::Put(_, _))));
    assert!(plan(UpdateOp::MapInsert, Some(txt("k")), None).is_none());
    assert!(matches!(plan(UpdateOp::MapRemove, Some(txt("k")), None), Some(Edit::Cut(_))));
    assert!(matches!(plan(UpdateOp::MapClear, None, None), Some(Edit::Wipe)));
}

#[test]
fn a_change_is_made_to_the_value_that_it_fits() {
    let mut list = numbers(&[1, 2, 3]);
    apply_edit(&mut list, Edit::Insert(0, number(0))).unwrap();
    apply_edit(&mut list, Edit::Remove(2)).unwrap();
    apply_edit(&mut list, Edit::Push(number(9))).unwrap();
    assert!(list.same(&numbers(&[0, 1, 3, 9])));
    assert!(matches!(apply_edit(&mut list, Edit::Remove(4)), Err(Error::Custom(_))));
    assert!(matches!(apply_edit(&mut list, Edit::Insert(5, number(1))), Err(Error::Custom(_))));
    assert!(matches!(apply_edit(&mut list, Edit::Wipe), Err(Error::Custom(_))));
    assert!(list.same(&numbers(&[0, 1, 3, 9])));
    apply_edit(&mut list, Edit::Clear).unwrap();
    assert!(list.same(&numbers(&[])));
    let mut map = Value::Dict(Vec::new());
    apply_edit(&mut map, Edit::Put(txt("a"), number(1))).unwrap();
    apply_edit(&mut map, Edit::Put(txt("b"), number(2))).unwrap();
    apply_edit(&mut map, Edit::Put(txt("a"), number(3))).unwrap();
    apply_edit(&mut map, Edit::Cut(txt("z"))).unwrap();
    assert!(map.same(&Value::Dict(vec![
        Entry { key: txt("a"), val: number(3) },
        Entry { key: txt("b"), val: number(2) },
    ])));
    apply_edit(&mut map, Edit::Cut(txt("a"))).unwrap();
    assert!(map.same(&Value::Dict(vec![Entry { key: txt("b"), val: number(2) }])));
    assert!(matches!(apply_edit(&mut map, Edit::Push(number(1))), Err(Error::Custom(_))));
    apply_edit(&mut map, Edit::Wipe).unwrap();
    assert!(map.same(&Value::Dict(Vec::new())));
    let mut any = number(1);
    apply_edit(&mut any, Edit::Assign(txt("now"))).unwrap();
    assert!(any.same(&txt("now")));
}

#[test]
fn a_change_is_written_and_read_as_what_it_carries() {
    let ctx = NodeContext::new::<TagServer>();
    let mut out = Vec::new();
    write_edit(&mut out, &ctx, &number_list(), &Edit::Insert(2, number(7))).unwrap();
    assert_eq!(out, vec![0, 0, 0, 2, 0, 0, 0, 7]);
    let mut mine = NodeContext::new::<TagClient>();
    let mut cur = Cursor::new(out);
    let back = read_edit(&mut cur, &mut mine, &number_list(), UpdateOp::VecInsert).unwrap();
    assert!(matches!(back, Edit::Insert(2, ref x) if x.same(&number(7))));
    assert_eq!(cur.available(), 0);
    let refused = write_edit(&mut Vec::new(), &ctx, &Schema::Text, &Edit::Push(number(1)));
    assert!(matches!(refused, Err(Error::Custom(_))));
    let mut short = Cursor::new(vec![0, 0]);
    let cut = read_edit(&mut short, &mut mine, &number_list(), UpdateOp::VecRemove);
    assert!(matches!(cut, Err(Error::IOError(_))));
    let mut none = Cursor::new(Vec::new());
    let clear = read_edit(&mut none, &mut mine, &number_list(), UpdateOp::VecClear).unwrap();
    assert!(matches!(clear, Edit::Clear));
    let mut wrong = Cursor::new(Vec::new());
    let no_list = read_edit(&mut wrong, &mut mine, &Schema::Text, UpdateOp::VecClear);
    assert!(matches!(no_list, Err(Error::Custom(_))));
}

#[test]
fn a_tag_is_found_where_one_member_has_it() {
    let fields = vec![arg("a", Schema::Text), arg("b", Schema::Text), arg("a", Schema::Text)];
    assert_eq!(find_tag(&fields, &"b".to_string()).unwrap(), Some(1));
    assert_eq!(find_tag(&fields, &"c".to_string()).unwrap(), None);
    assert!(matches!(find_tag(&fields, &"a".to_string()), Err(Error::Custom(_))));
    let shape = Schema::Record(vec![arg("a", Schema::Text), arg("b", Schema::Text)]);
    let v = Value::Record(vec![txt("x"), txt("y")]);
    assert_eq!(locate(&shape, &v, &"b".to_string()).unwrap(), Some(1));
    assert_eq!(locate(&shape, &v, &"z".to_string()).unwrap(), None);
    let short = Value::Record(vec![txt("x")]);
    assert!(matches!(locate(&shape, &short, &"b".to_string()), Err(Error::Custom(_))));
    assert!(matches!(locate(&Schema::Text, &txt("x"), &"b".to_string()), Err(Error::Custom(_))));
}

#[test]
fn an_update_starts_with_its_kind_and_its_tag() {
    let mut out = Vec::new();
    write_header(&mut out, UpdateOp::VecRemove, &"xs".to_string()).unwrap();
    assert_eq!(out, vec![4, 0, 0, 0, 2, b'x', b's']);
    let mut whole = Vec::new();
    write_header(&mut whole, UpdateOp::Replace, &String::new()).unwrap();
    assert_eq!(whole, vec![0, 0, 0, 0, 0]);
}

#[test]
fn sending_and_receiving_say_whether_a_member_was_met() {
    let shape = Schema::Record(vec![arg("xs", number_list()), arg("n", Schema::Scalar(Kind::U32))]);
    let ctx = NodeContext::new::<TagServer>();
    let mut theirs = Value::Record(vec![numbers(&[1]), number(5)]);
    let mut out = Vec::new();
    let met = send_update(
        &mut out,
        &ctx,
        &shape,
        &mut theirs,
        UpdateOp::VecPush,
        &"xs".to_string(),
        None,
        Some(number(2)),
    )
    .unwrap();
    assert!(met);
    assert_eq!(out, vec![0, 0, 0, 2]);
    let missed = send_update(
        &mut out,
        &ctx,
        &shape,
        &mut theirs,
        UpdateOp::VecPush,
        &"ys".to_string(),
        None,
        Some(number(2)),
    )
    .unwrap();
    assert!(!missed);
    assert_eq!(out, vec![0, 0, 0, 2]);
    let mut mine = Value::Record(vec![numbers(&[1]), number(5)]);
    let mut client = NodeContext::new::<TagClient>();
    let mut cur = Cursor::new(out);
    let got = recv_update(&mut cur, &mut client, &shape, &mut mine, UpdateOp::VecPush, &"xs".to_string())
        .unwrap();
    assert!(got);
    assert!(mine.same(&theirs));
    assert!(mine.same(&Value::Record(vec![numbers(&[1, 2]), number(5)])));
    let mut rest = Cursor::new(vec![1, 2, 3]);
    let passed =
        recv_update(&mut rest, &mut client, &shape, &mut mine, UpdateOp::Update, &"zz".to_string())
            .unwrap();
    assert!(!passed);
    assert_eq!(rest.available(), 3);
}

#[test]
fn a_connection_is_ready_when_a_packet_waits_or_it_is_dead() {
    let mut conn = Connection::new(3);
    assert_eq!(conn.id(), 3);
    assert!(!conn.ready());
    conn.feed(&[0, 0, 0, 1, 0x12, 0x34, 0x56, 0x78, 0, 0, 0, 0]);
    assert!(conn.ready());
    let p = conn.recv().unwrap();
    assert_eq!((p.node, p.data.len()), (1, 0));
    assert!(!conn.ready());
    conn.fail(Error::Custom("gone".to_string()));
    assert!(conn.ready());
    assert!(!conn.is_alive());
}

#[test]
fn a_server_counts_its_nodes_and_its_connections_from_one() {
    let mut server = Server::new();
    assert_eq!(server.next_node_id(), 1);
    assert_eq!(server.next_connection_id(), 1);
    assert_eq!(server.client_count(), 0);
    let node = server.make_node(Schema::Text, txt("a"));
    assert_eq!(node.id, 1);
    let root = server.add_client(Schema::Text, txt("r")).unwrap();
    assert_eq!(root.id, 2);
    assert_eq!(server.next_node_id(), 3);
    assert_eq!(server.next_connection_id(), 2);
    assert_eq!(server.client_count(), 1);
    assert_eq!(server.connection_id(0), 1);
    let scratch = NodeContext::new::<TagAgnostic>();
    assert!(scratch.is_empty());
}
