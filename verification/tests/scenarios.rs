use ggnet::connection::Connection;
use ggnet::node::{Node, NodeBase};
use ggnet::rpc::Procedure;
use ggnet::server::{Client, Server};
use ggnet::value::{Entry, Field, Kind, Scalar, Schema, Value};
use ggnet::Error;

fn field(name: &str, ty: Schema) -> Field {
    Field { name: name.to_string(), ty }
}

fn text(s: &str) -> Value {
    Value::Text(s.to_string())
}

fn texts(items: &[&str]) -> Value {
    Value::List(items.iter().map(|s| text(s)).collect())
}

fn log_schema() -> Schema {
    Schema::Record(vec![field("messages", Schema::List(Box::new(Schema::Text)))])
}

fn room_schema() -> Schema {
    Schema::Record(vec![
        field("title", Schema::Text),
        field("chat", Schema::Node(Box::new(log_schema()))),
    ])
}

fn chat_procedures() -> Vec<Procedure> {
    vec![Procedure { name: "chat".to_string(), args: vec![field("msg", Schema::Text)] }]
}

/// Moves what the server has for its `i`-th client to that client.
fn deliver(server: &mut Server, i: usize, client: &mut Client) {
    let bytes = server.take_outgoing(i);
    client.feed(&bytes);
    client.update();
}

/// Connects a client to what the server has written for its `i`-th client.
fn connect(server: &mut Server, i: usize, schema: Schema) -> Client {
    let bytes = server.take_outgoing(i);
    let mut conn = Connection::new(0);
    conn.feed(&bytes);
    Client::new(conn, schema).unwrap()
}

/// Carries out the calls that have arrived: `chat` pushes its message.
fn tick(server: &mut Server) {
    let calls = server.update();
    for call in calls {
        assert_eq!(call.name, "chat");
        let node = Node { id: call.node, owner: None };
        let mut args = call.args;
        let msg = args.remove(0);
        node.member_vec_push(server.context_mut(), "messages".to_string(), msg).unwrap();
    }
    server.flush();
}

fn messages_of(client: &Client, chat: u32) -> Vec<String> {
    let got = client.context().get(chat).unwrap();
    match &got.val {
        Value::Record(members) => match &members[0] {
            Value::List(items) => items
                .iter()
                .map(|v| match v {
                    Value::Text(t) => t.clone(),
                    _ => panic!("a message that is no text"),
                })
                .collect(),
            _ => panic!("messages that are no list"),
        },
        _ => panic!("a log that is no record"),
    }
}

#[test]
fn initial_replication() {
    let mut server = Server::new();
    let chat = server.make_node(log_schema(), Value::Record(vec![texts(&[])]));
    let root = server
        .add_client(room_schema(), Value::Record(vec![text("Room"), Value::Node(chat.id)]))
        .unwrap();
    assert_eq!(chat.id, 1);
    assert_eq!(root.id, 2);
    assert_eq!(server.client_count(), 1);
    let client = connect(&mut server, 0, room_schema());
    assert_eq!(client.root().id, root.id);
    let view = client.root().as_ref(client.context()).unwrap();
    assert!(view.x.val.same(&Value::Record(vec![text("Room"), Value::Node(chat.id)])));
    assert!(view.x.schema.same(&room_schema()));
    assert_eq!(messages_of(&client, chat.id), Vec::<String>::new());
}

#[test]
fn the_greeting_is_one_packet_with_the_root_and_what_it_refers_to() {
    let mut server = Server::new();
    let chat = server.make_node(log_schema(), Value::Record(vec![texts(&["a"])]));
    server
        .add_client(room_schema(), Value::Record(vec![text("R"), Value::Node(chat.id)]))
        .unwrap();
    let bytes = server.take_outgoing(0);
    let expected: Vec<u8> = vec![
        0, 0, 0, 2, // the packet is for the root node
        0x12, 0x34, 0x56, 0x78, // the constant
        0, 0, 0, 22, // the length of the payload
        0, 0, 0, 2, // the root's id
        0, 0, 0, 1, b'R', // title
        0, 0, 0, 1, // chat: the node's id
        0, 0, 0, 1, 0, 0, 0, 1, b'a', // and its value
    ];
    assert_eq!(bytes, expected);
    assert_eq!(server.take_outgoing(0), Vec::<u8>::new());
}

#[test]
fn client_rpc_to_server() {
    let mut server = Server::new();
    server.declare(log_schema(), chat_procedures());
    let chat = server.make_node(log_schema(), Value::Record(vec![texts(&[])]));
    server
        .add_client(room_schema(), Value::Record(vec![text("Room"), Value::Node(chat.id)]))
        .unwrap();
    let mut client = connect(&mut server, 0, room_schema());
    let procs = chat_procedures();
    client.call(chat.id, &procs[0], &vec![text("hi")]).unwrap();
    let bytes = client.take_outgoing();
    server.feed(0, &bytes);
    tick(&mut server);
    deliver(&mut server, 0, &mut client);
    assert_eq!(messages_of(&client, chat.id), vec!["hi".to_string()]);
    let there = server.context().get(chat.id).unwrap();
    assert!(there.val.same(&Value::Record(vec![texts(&["hi"])])));
}

#[test]
fn two_client_fanout() {
    let mut server = Server::new();
    server.declare(log_schema(), chat_procedures());
    let chat = server.make_node(log_schema(), Value::Record(vec![texts(&[])]));
    server
        .add_client(room_schema(), Value::Record(vec![text("One"), Value::Node(chat.id)]))
        .unwrap();
    server
        .add_client(room_schema(), Value::Record(vec![text("Two"), Value::Node(chat.id)]))
        .unwrap();
    let mut a = connect(&mut server, 0, room_schema());
    let mut b = connect(&mut server, 1, room_schema());
    let procs = chat_procedures();
    a.call(chat.id, &procs[0], &vec![text("a")]).unwrap();
    b.call(chat.id, &procs[0], &vec![text("b")]).unwrap();
    let from_a = a.take_outgoing();
    let from_b = b.take_outgoing();
    server.feed(0, &from_a);
    server.feed(1, &from_b);
    tick(&mut server);
    deliver(&mut server, 0, &mut a);
    deliver(&mut server, 1, &mut b);
    assert_eq!(messages_of(&a, chat.id), vec!["a".to_string(), "b".to_string()]);
    assert_eq!(messages_of(&b, chat.id), messages_of(&a, chat.id));
}

fn state_schema() -> Schema {
    Schema::Choice(vec![
        vec![],
        vec![field("message", Schema::Text)],
        vec![field("", Schema::Text)],
    ])
}

fn game_schema() -> Schema {
    Schema::Record(vec![
        field("state", state_schema()),
        field("a", Schema::Scalar(Kind::U32)),
        field("b", Schema::Text),
        field("c", Schema::List(Box::new(Schema::Scalar(Kind::U8)))),
    ])
}

fn game(state: Value, a: u32) -> Value {
    Value::Record(vec![
        state,
        Value::Scalar(Scalar::U32(a)),
        text("bee"),
        Value::List(vec![Value::Scalar(Scalar::U8(1)), Value::Scalar(Scalar::U8(2))]),
    ])
}

#[test]
fn enum_replace() {
    let mut server = Server::new();
    let root = server.add_client(game_schema(), game(Value::Choice(0, vec![]), 1)).unwrap();
    let mut client = connect(&mut server, 0, game_schema());
    let mut b = root.as_mut(server.context_mut()).unwrap();
    b.set(game(Value::Choice(2, vec![text("done")]), 1));
    server.context_mut().unlock(b);
    root.member_modified(server.context_mut(), "state".to_string()).unwrap();
    server.flush();
    deliver(&mut server, 0, &mut client);
    let got = client.context().get(root.id).unwrap();
    assert!(got.val.same(&game(Value::Choice(2, vec![text("done")]), 1)));
    assert!(client.is_alive());
}

#[test]
fn partial_update_does_not_touch_siblings() {
    let mut server = Server::new();
    let root = server.add_client(game_schema(), game(Value::Choice(0, vec![]), 1)).unwrap();
    let mut client = connect(&mut server, 0, game_schema());
    // The server changes `a` and `b`, and tells of `a` only.
    let mut b = root.as_mut(server.context_mut()).unwrap();
    b.set(Value::Record(vec![
        Value::Choice(0, vec![]),
        Value::Scalar(Scalar::U32(77)),
        text("changed"),
        Value::List(vec![Value::Scalar(Scalar::U8(1)), Value::Scalar(Scalar::U8(2))]),
    ]));
    server.context_mut().unlock(b);
    root.member_modified(server.context_mut(), "a".to_string()).unwrap();
    server.flush();
    let bytes = server.take_outgoing(0);
    let expected: Vec<u8> = vec![
        0, 0, 0, 1, 0x12, 0x34, 0x56, 0x78, 0, 0, 0, 10, // packet for node 1, ten bytes
        1, // the kind: one member anew
        0, 0, 0, 1, b'a', // the tag
        0, 0, 0, 77, // the member
    ];
    assert_eq!(bytes, expected);
    client.feed(&bytes);
    client.update();
    let got = client.context().get(root.id).unwrap();
    assert!(got.val.same(&game(Value::Choice(0, vec![]), 77)));
}

#[test]
fn an_update_marks_the_node_as_changed_until_asked() {
    let mut server = Server::new();
    let root = server.add_client(game_schema(), game(Value::Choice(0, vec![]), 1)).unwrap();
    let mut client = connect(&mut server, 0, game_schema());
    assert!(!client.changed(root.id));
    root.member_modified(server.context_mut(), "a".to_string()).unwrap();
    server.flush();
    deliver(&mut server, 0, &mut client);
    assert!(client.changed(root.id));
    assert!(!client.changed(root.id));
    assert!(!client.changed(99));
    assert!(!root.changed(server.context_mut()));
}

#[test]
fn reference_removal() {
    let mut server = Server::new();
    let chat = server.make_node(log_schema(), Value::Record(vec![texts(&[])]));
    let one = server
        .add_client(room_schema(), Value::Record(vec![text("One"), Value::Node(chat.id)]))
        .unwrap();
    server
        .add_client(room_schema(), Value::Record(vec![text("Two"), Value::Node(chat.id)]))
        .unwrap();
    let mut a = connect(&mut server, 0, room_schema());
    let mut b = connect(&mut server, 1, room_schema());
    // The first root lets go of the chat: it refers to another log from now on.
    let other = server.make_node(log_schema(), Value::Record(vec![texts(&[])]));
    let mut held = one.as_mut(server.context_mut()).unwrap();
    held.set(Value::Record(vec![text("One"), Value::Node(other.id)]));
    server.context_mut().unlock(held);
    chat.member_vec_push(server.context_mut(), "messages".to_string(), text("late")).unwrap();
    server.flush();
    assert_eq!(server.take_outgoing(0), Vec::<u8>::new());
    deliver(&mut server, 1, &mut b);
    a.update();
    assert_eq!(messages_of(&a, chat.id), Vec::<String>::new());
    assert_eq!(messages_of(&b, chat.id), vec!["late".to_string()]);
}

#[test]
fn a_node_under_one_root_is_heard_of_on_that_connection_only() {
    let mut server = Server::new();
    let chat = server.make_node(log_schema(), Value::Record(vec![texts(&[])]));
    let lone = server.make_node(log_schema(), Value::Record(vec![texts(&[])]));
    server
        .add_client(room_schema(), Value::Record(vec![text("One"), Value::Node(chat.id)]))
        .unwrap();
    server
        .add_client(room_schema(), Value::Record(vec![text("Two"), Value::Node(lone.id)]))
        .unwrap();
    let _ = server.take_outgoing(0);
    let _ = server.take_outgoing(1);
    lone.member_vec_push(server.context_mut(), "messages".to_string(), text("x")).unwrap();
    server.flush();
    assert_eq!(server.take_outgoing(0), Vec::<u8>::new());
    assert!(!server.take_outgoing(1).is_empty());
    let book_conns = {
        let mut to = Vec::new();
        lone.add_connections(server.context(), &mut to);
        to
    };
    assert_eq!(book_conns, vec![2]);
}

#[test]
fn a_root_that_refers_to_nothing_there_is_refused() {
    let mut server = Server::new();
    let r = server.add_client(room_schema(), Value::Record(vec![text("One"), Value::Node(9)]));
    assert!(matches!(r, Err(Error::Custom(_))));
    assert_eq!(server.client_count(), 0);
    assert!(server.context().get(1).is_none());
}

#[test]
fn a_dead_client_is_let_go_at_the_next_tick() {
    let mut server = Server::new();
    server.add_client(log_schema(), Value::Record(vec![texts(&[])])).unwrap();
    server.add_client(log_schema(), Value::Record(vec![texts(&[])])).unwrap();
    assert_eq!(server.client_count(), 2);
    server.fail(0, Error::Custom("the socket broke".to_string()));
    let calls = server.update();
    assert!(calls.is_empty());
    assert_eq!(server.client_count(), 1);
    assert_eq!(server.connection_id(0), 2);
}

#[test]
fn an_unknown_procedure_kills_the_connection() {
    let mut server = Server::new();
    server.declare(log_schema(), chat_procedures());
    let root = server.add_client(log_schema(), Value::Record(vec![texts(&[])])).unwrap();
    let mut client = connect(&mut server, 0, log_schema());
    let bogus = Procedure { name: "shout".to_string(), args: vec![] };
    client.call(root.id, &bogus, &vec![]).unwrap();
    let bytes = client.take_outgoing();
    server.feed(0, &bytes);
    let calls = server.update();
    assert!(calls.is_empty());
    assert_eq!(server.client_count(), 0);
}

#[test]
fn a_client_without_a_greeting_fails_with_the_connections_error() {
    let mut conn = Connection::new(0);
    conn.fail(Error::Custom("refused".to_string()));
    match Client::new(conn, log_schema()) {
        Err(Error::Custom(text)) => assert_eq!(text, "refused"),
        _ => panic!("expected the connection's error"),
    }
}

#[test]
fn an_update_for_a_node_that_is_not_there_kills_the_client() {
    let mut server = Server::new();
    server.add_client(log_schema(), Value::Record(vec![texts(&[])])).unwrap();
    let mut client = connect(&mut server, 0, log_schema());
    let mut fake = Connection::new(9);
    fake.send(77, &[1, 0, 0, 0, 0]);
    let bytes = fake.take_outgoing();
    client.feed(&bytes);
    client.update();
    assert!(!client.is_alive());
}

#[test]
fn mapping_changes_reach_the_client() {
    let schema = Schema::Record(vec![field(
        "ages",
        Schema::Dict(Box::new(Schema::Text), Box::new(Schema::Scalar(Kind::U8))),
    )]);
    let mut server = Server::new();
    let root = server.add_client(schema.duplicate(), Value::Record(vec![Value::Dict(vec![])])).unwrap();
    let mut client = connect(&mut server, 0, schema.duplicate());
    let age = |n: u8| Value::Scalar(Scalar::U8(n));
    root.member_map_insert(server.context_mut(), "ages".to_string(), text("ann"), age(3)).unwrap();
    root.member_map_insert(server.context_mut(), "ages".to_string(), text("bob"), age(4)).unwrap();
    root.member_map_insert(server.context_mut(), "ages".to_string(), text("ann"), age(5)).unwrap();
    server.flush();
    deliver(&mut server, 0, &mut client);
    let expected = Value::Record(vec![Value::Dict(vec![
        Entry { key: text("ann"), val: age(5) },
        Entry { key: text("bob"), val: age(4) },
    ])]);
    assert!(client.context().get(root.id).unwrap().val.same(&expected));
    assert!(server.context().get(root.id).unwrap().val.same(&expected));
    root.member_map_remove(server.context_mut(), "ages".to_string(), text("ann")).unwrap();
    server.flush();
    deliver(&mut server, 0, &mut client);
    let expected = Value::Record(vec![Value::Dict(vec![Entry { key: text("bob"), val: age(4) }])]);
    assert!(client.context().get(root.id).unwrap().val.same(&expected));
    root.member_map_clear(server.context_mut(), "ages".to_string()).unwrap();
    server.flush();
    deliver(&mut server, 0, &mut client);
    let expected = Value::Record(vec![Value::Dict(vec![])]);
    assert!(client.context().get(root.id).unwrap().val.same(&expected));
}

#[test]
fn list_changes_reach_the_client() {
    let mut server = Server::new();
    let root = server.add_client(log_schema(), Value::Record(vec![texts(&[])])).unwrap();
    let mut client = connect(&mut server, 0, log_schema());
    let tag = || "messages".to_string();
    root.member_vec_push(server.context_mut(), tag(), text("a")).unwrap();
    root.member_vec_push(server.context_mut(), tag(), text("c")).unwrap();
    root.member_vec_insert(server.context_mut(), tag(), 1, text("b")).unwrap();
    server.flush();
    deliver(&mut server, 0, &mut client);
    assert_eq!(messages_of(&client, root.id), vec!["a", "b", "c"]);
    assert!(server.context().get(root.id).unwrap().val.same(&Value::Record(vec![texts(&["a", "b", "c"])])));
    root.member_vec_remove(server.context_mut(), tag(), 0).unwrap();
    server.flush();
    deliver(&mut server, 0, &mut client);
    assert_eq!(messages_of(&client, root.id), vec!["b", "c"]);
    root.member_vec_clear(server.context_mut(), tag()).unwrap();
    server.flush();
    deliver(&mut server, 0, &mut client);
    assert_eq!(messages_of(&client, root.id), Vec::<String>::new());
}

#[test]
fn resync_sends_the_whole_value() {
    let mut server = Server::new();
    let root = server.add_client(game_schema(), game(Value::Choice(0, vec![]), 1)).unwrap();
    let mut client = connect(&mut server, 0, game_schema());
    let mut held = root.as_mut(server.context_mut()).unwrap();
    held.set(game(Value::Choice(1, vec![text("m")]), 9));
    server.context_mut().unlock(held);
    root.resync(server.context_mut()).unwrap();
    server.flush();
    deliver(&mut server, 0, &mut client);
    assert!(client.context().get(root.id).unwrap().val.same(&game(Value::Choice(1, vec![text("m")]), 9)));
}

#[test]
fn a_change_that_does_not_fit_is_refused_and_nothing_is_sent() {
    let mut server = Server::new();
    let root = server.add_client(game_schema(), game(Value::Choice(0, vec![]), 1)).unwrap();
    let _ = server.take_outgoing(0);
    let ctx = server.context_mut();
    // A list change on a member that is no list.
    assert!(matches!(
        root.member_vec_push(ctx, "a".to_string(), text("x")),
        Err(Error::Custom(_))
    ));
    // An item of another shape.
    assert!(matches!(
        root.member_vec_push(ctx, "c".to_string(), text("x")),
        Err(Error::Custom(_))
    ));
    // An index beyond the list.
    assert!(matches!(
        root.member_vec_remove(ctx, "c".to_string(), 2),
        Err(Error::Custom(_))
    ));
    assert!(matches!(
        root.member_vec_insert(ctx, "c".to_string(), 3, Value::Scalar(Scalar::U8(0))),
        Err(Error::Custom(_))
    ));
    // A node that is not there.
    let nowhere = Node { id: 99, owner: None };
    assert!(matches!(nowhere.resync(ctx), Err(Error::Custom(_))));
    server.flush();
    assert_eq!(server.take_outgoing(0), Vec::<u8>::new());
    assert!(server.context().get(root.id).unwrap().val.same(&game(Value::Choice(0, vec![]), 1)));
}

#[test]
fn a_tag_that_no_member_has_changes_nothing() {
    let mut server = Server::new();
    let root = server.add_client(game_schema(), game(Value::Choice(0, vec![]), 1)).unwrap();
    let mut client = connect(&mut server, 0, game_schema());
    root.member_modified(server.context_mut(), "zzz".to_string()).unwrap();
    server.flush();
    deliver(&mut server, 0, &mut client);
    assert!(client.is_alive());
    assert!(client.context().get(root.id).unwrap().val.same(&game(Value::Choice(0, vec![]), 1)));
}

#[test]
fn a_tag_that_two_members_have_is_refused() {
    let schema = Schema::Record(vec![
        field("x", Schema::Scalar(Kind::U8)),
        field("x", Schema::Scalar(Kind::U8)),
    ]);
    let mut server = Server::new();
    let both = Value::Record(vec![Value::Scalar(Scalar::U8(1)), Value::Scalar(Scalar::U8(2))]);
    let root = server.add_client(schema, both).unwrap();
    match root.member_modified(server.context_mut(), "x".to_string()) {
        Err(Error::Custom(text)) => assert_eq!(text, "duplicate tag found"),
        _ => panic!("expected the tag to be refused"),
    }
}

#[test]
fn an_update_that_is_refused_is_not_applied_and_kills_the_client() {
    let mut server = Server::new();
    let chat = server.make_node(log_schema(), Value::Record(vec![texts(&["kept"])]));
    server
        .add_client(room_schema(), Value::Record(vec![text("Room"), Value::Node(chat.id)]))
        .unwrap();
    let mut client = connect(&mut server, 0, room_schema());
    // A push under the tag "messages" whose item is cut short, and then a good one.
    let mut peer = Connection::new(9);
    peer.send(chat.id, &[2, 0, 0, 0, 8, b'm', b'e', b's', b's', b'a', b'g', b'e', b's', 0, 0, 0, 9, b'x']);
    peer.send(chat.id, &[2, 0, 0, 0, 8, b'm', b'e', b's', b's', b'a', b'g', b'e', b's', 0, 0, 0, 1, b'y']);
    client.feed(&peer.take_outgoing());
    client.update();
    assert!(!client.is_alive());
    assert_eq!(messages_of(&client, chat.id), vec!["kept".to_string()]);
}
