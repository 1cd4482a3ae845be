use ggnet::encode::Cursor;
use ggnet::node::{NodeContext, TagClient, TagServer};
use ggnet::value::{Entry, Field, Kind, Scalar, Schema, Value};
use ggnet::visitor::deserializer::read_value;
use ggnet::visitor::serializer::write_value;
use ggnet::Error;

fn field(name: &str, ty: Schema) -> Field {
    Field { name: name.to_string(), ty }
}

fn text(s: &str) -> Value {
    Value::Text(s.to_string())
}

fn u32v(n: u32) -> Value {
    Value::Scalar(Scalar::U32(n))
}

fn written(ctx: &NodeContext, schema: &Schema, v: &Value) -> Vec<u8> {
    let mut out = Vec::new();
    write_value(&mut out, ctx, schema, v).unwrap();
    out
}

fn round_trip(schema: &Schema, v: &Value) -> Value {
    let ctx = NodeContext::new::<TagServer>();
    let bytes = written(&ctx, schema, v);
    let mut mine = NodeContext::new::<TagClient>();
    let mut cur = Cursor::new(bytes);
    let back = read_value(&mut cur, &mut mine, schema).unwrap();
    assert_eq!(cur.available(), 0);
    back
}

#[test]
fn every_scalar_comes_back() {
    let all = vec![
        (Kind::U8, Scalar::U8(200)),
        (Kind::I8, Scalar::I8(-100)),
        (Kind::U16, Scalar::U16(60000)),
        (Kind::I16, Scalar::I16(-30000)),
        (Kind::U32, Scalar::U32(4_000_000_000)),
        (Kind::I32, Scalar::I32(-2_000_000_000)),
        (Kind::U64, Scalar::U64(u64::MAX - 1)),
        (Kind::I64, Scalar::I64(i64::MIN + 1)),
        (Kind::F32, Scalar::F32(1.5f32.to_bits())),
        (Kind::F64, Scalar::F64((-2.25f64).to_bits())),
        (Kind::Bool, Scalar::Bool(true)),
        (Kind::Duration, Scalar::Duration(3, 999_999_999)),
    ];
    for (k, x) in all {
        let back = round_trip(&Schema::Scalar(k), &Value::Scalar(x));
        assert!(back.same(&Value::Scalar(x)));
    }
}

#[test]
fn float_bits_are_written_like_the_float() {
    let ctx = NodeContext::new::<TagServer>();
    let bytes = written(&ctx, &Schema::Scalar(Kind::F32), &Value::Scalar(Scalar::F32(1.0f32.to_bits())));
    assert_eq!(bytes, 1.0f32.to_be_bytes().to_vec());
    let bytes = written(&ctx, &Schema::Scalar(Kind::F64), &Value::Scalar(Scalar::F64(0.1f64.to_bits())));
    assert_eq!(bytes, 0.1f64.to_be_bytes().to_vec());
}

#[test]
fn duration_is_seconds_then_nanoseconds() {
    let ctx = NodeContext::new::<TagServer>();
    let bytes = written(
        &ctx,
        &Schema::Scalar(Kind::Duration),
        &Value::Scalar(Scalar::Duration(1, 2)),
    );
    assert_eq!(bytes, vec![0, 0, 0, 0, 0, 0, 0, 1, 0, 0, 0, 2]);
}

#[test]
fn whole_seconds_among_the_nanoseconds_are_carried() {
    let mut ctx = NodeContext::new::<TagClient>();
    let mut cur = Cursor::new(vec![0, 0, 0, 0, 0, 0, 0, 1, 0x77, 0x35, 0x94, 0x01]);
    let v = read_value(&mut cur, &mut ctx, &Schema::Scalar(Kind::Duration)).unwrap();
    assert!(v.same(&Value::Scalar(Scalar::Duration(3, 1))));
}

#[test]
fn a_duration_beyond_counting_is_refused() {
    let mut ctx = NodeContext::new::<TagClient>();
    let mut bytes = vec![0xff; 8];
    bytes.extend_from_slice(&[0x77, 0x35, 0x94, 0x01]);
    let mut cur = Cursor::new(bytes);
    let r = read_value(&mut cur, &mut ctx, &Schema::Scalar(Kind::Duration));
    assert!(matches!(r, Err(Error::Custom(_))));
}

#[test]
fn a_duration_with_a_second_of_nanoseconds_is_not_written() {
    let ctx = NodeContext::new::<TagServer>();
    let mut out = Vec::new();
    let r = write_value(
        &mut out,
        &ctx,
        &Schema::Scalar(Kind::Duration),
        &Value::Scalar(Scalar::Duration(0, 1_000_000_000)),
    );
    assert!(matches!(r, Err(Error::Custom(_))));
}

#[test]
fn record_is_its_members_in_order() {
    let schema = Schema::Record(vec![
        field("a", Schema::Scalar(Kind::U8)),
        field("b", Schema::Text),
        field("c", Schema::Scalar(Kind::U16)),
    ]);
    let v = Value::Record(vec![
        Value::Scalar(Scalar::U8(7)),
        text("x"),
        Value::Scalar(Scalar::U16(258)),
    ]);
    let ctx = NodeContext::new::<TagServer>();
    assert_eq!(written(&ctx, &schema, &v), vec![7, 0, 0, 0, 1, b'x', 1, 2]);
    assert!(round_trip(&schema, &v).same(&v));
}

#[test]
fn list_is_count_then_items() {
    let schema = Schema::List(Box::new(Schema::Scalar(Kind::U8)));
    let v = Value::List(vec![Value::Scalar(Scalar::U8(1)), Value::Scalar(Scalar::U8(2))]);
    let ctx = NodeContext::new::<TagServer>();
    assert_eq!(written(&ctx, &schema, &v), vec![0, 0, 0, 2, 1, 2]);
    assert!(round_trip(&schema, &v).same(&v));
}

#[test]
fn mapping_is_count_then_keys_and_values() {
    let schema = Schema::Dict(Box::new(Schema::Scalar(Kind::U8)), Box::new(Schema::Text));
    let v = Value::Dict(vec![
        Entry { key: Value::Scalar(Scalar::U8(1)), val: text("a") },
        Entry { key: Value::Scalar(Scalar::U8(2)), val: text("b") },
    ]);
    let ctx = NodeContext::new::<TagServer>();
    assert_eq!(
        written(&ctx, &schema, &v),
        vec![0, 0, 0, 2, 1, 0, 0, 0, 1, b'a', 2, 0, 0, 0, 1, b'b']
    );
    assert!(round_trip(&schema, &v).same(&v));
}

#[test]
fn a_key_read_twice_keeps_the_later_value() {
    let schema = Schema::Dict(Box::new(Schema::Scalar(Kind::U8)), Box::new(Schema::Scalar(Kind::U8)));
    let mut ctx = NodeContext::new::<TagClient>();
    let mut cur = Cursor::new(vec![0, 0, 0, 3, 1, 10, 2, 20, 1, 30]);
    let v = read_value(&mut cur, &mut ctx, &schema).unwrap();
    let expected = Value::Dict(vec![
        Entry { key: Value::Scalar(Scalar::U8(1)), val: Value::Scalar(Scalar::U8(30)) },
        Entry { key: Value::Scalar(Scalar::U8(2)), val: Value::Scalar(Scalar::U8(20)) },
    ]);
    assert!(v.same(&expected));
}

#[test]
fn a_mapping_with_a_key_twice_is_not_written() {
    let schema = Schema::Dict(Box::new(Schema::Scalar(Kind::U8)), Box::new(Schema::Scalar(Kind::U8)));
    let v = Value::Dict(vec![
        Entry { key: Value::Scalar(Scalar::U8(1)), val: Value::Scalar(Scalar::U8(1)) },
        Entry { key: Value::Scalar(Scalar::U8(1)), val: Value::Scalar(Scalar::U8(2)) },
    ]);
    let ctx = NodeContext::new::<TagServer>();
    let mut out = Vec::new();
    assert!(matches!(write_value(&mut out, &ctx, &schema, &v), Err(Error::Custom(_))));
}

#[test]
fn optional_value_is_a_flag_and_then_the_value() {
    let schema = Schema::Maybe(Box::new(Schema::Scalar(Kind::U16)));
    let some = Value::Maybe(Some(Box::new(Value::Scalar(Scalar::U16(3)))));
    let none = Value::Maybe(None);
    let ctx = NodeContext::new::<TagServer>();
    assert_eq!(written(&ctx, &schema, &some), vec![1, 0, 3]);
    assert_eq!(written(&ctx, &schema, &none), vec![0]);
    assert!(round_trip(&schema, &some).same(&some));
    assert!(round_trip(&schema, &none).same(&none));
}

fn state_schema() -> Schema {
    Schema::Choice(vec![
        vec![],
        vec![field("message", Schema::Text)],
        vec![field("characters", Schema::List(Box::new(Schema::Text)))],
        vec![field("room", Schema::Scalar(Kind::U32))],
        vec![field("", Schema::Text)],
    ])
}

#[test]
fn enum_is_the_number_of_the_variant_and_then_its_members() {
    let ctx = NodeContext::new::<TagServer>();
    let unit = Value::Choice(0, vec![]);
    let room = Value::Choice(3, vec![u32v(2)]);
    let exit = Value::Choice(4, vec![text("done")]);
    assert_eq!(written(&ctx, &state_schema(), &unit), vec![0]);
    assert_eq!(written(&ctx, &state_schema(), &room), vec![3, 0, 0, 0, 2]);
    assert_eq!(
        written(&ctx, &state_schema(), &exit),
        vec![4, 0, 0, 0, 4, b'd', b'o', b'n', b'e']
    );
    assert!(round_trip(&state_schema(), &unit).same(&unit));
    assert!(round_trip(&state_schema(), &room).same(&room));
    assert!(round_trip(&state_schema(), &exit).same(&exit));
}

#[test]
fn an_unknown_variant_is_refused() {
    let mut ctx = NodeContext::new::<TagClient>();
    let mut cur = Cursor::new(vec![5]);
    let r = read_value(&mut cur, &mut ctx, &state_schema());
    assert!(matches!(r, Err(Error::Custom(_))));
    let server = NodeContext::new::<TagServer>();
    let mut out = Vec::new();
    let r = write_value(&mut out, &server, &state_schema(), &Value::Choice(9, vec![]));
    assert!(matches!(r, Err(Error::Custom(_))));
}

#[test]
fn a_value_of_another_shape_is_not_written() {
    let ctx = NodeContext::new::<TagServer>();
    let mut out = Vec::new();
    let r = write_value(&mut out, &ctx, &Schema::Text, &u32v(1));
    assert!(matches!(r, Err(Error::Custom(_))));
    let r = write_value(&mut out, &ctx, &Schema::Scalar(Kind::U8), &u32v(1));
    assert!(matches!(r, Err(Error::Custom(_))));
    let schema = Schema::Record(vec![field("a", Schema::Text)]);
    let r = write_value(&mut out, &ctx, &schema, &Value::Record(vec![]));
    assert!(matches!(r, Err(Error::Custom(_))));
}

#[test]
fn truncated_value_is_an_io_error() {
    let schema = Schema::Record(vec![
        field("a", Schema::Scalar(Kind::U8)),
        field("b", Schema::Scalar(Kind::U32)),
    ]);
    let mut ctx = NodeContext::new::<TagClient>();
    let mut cur = Cursor::new(vec![7, 0, 0]);
    let r = read_value(&mut cur, &mut ctx, &schema);
    assert!(matches!(r, Err(Error::IOError(_))));
}

#[test]
fn invalid_text_is_a_utf_error() {
    let mut ctx = NodeContext::new::<TagClient>();
    let mut cur = Cursor::new(vec![0, 0, 0, 1, 0xff]);
    let r = read_value(&mut cur, &mut ctx, &Schema::Text);
    assert!(matches!(r, Err(Error::UTFError(_))));
}

fn log_schema() -> Schema {
    Schema::Record(vec![field("messages", Schema::List(Box::new(Schema::Text)))])
}

fn room_schema() -> Schema {
    Schema::Record(vec![
        field("title", Schema::Text),
        field("chat", Schema::Node(Box::new(log_schema()))),
    ])
}

#[test]
fn a_node_is_written_as_its_id_and_then_its_value() {
    let mut ctx = NodeContext::new::<TagServer>();
    let chat = ctx.create(log_schema(), Value::Record(vec![Value::List(vec![text("a")])]));
    assert_eq!(chat, 1);
    let room = Value::Record(vec![text("R"), Value::Node(chat)]);
    assert_eq!(
        written(&ctx, &room_schema(), &room),
        vec![0, 0, 0, 1, b'R', 0, 0, 0, 1, 0, 0, 0, 1, 0, 0, 0, 1, b'a']
    );
}

#[test]
fn nodes_that_arrive_are_stored_under_their_ids() {
    let mut server = NodeContext::new::<TagServer>();
    let chat = server.create(log_schema(), Value::Record(vec![Value::List(vec![text("a")])]));
    let room = Value::Record(vec![text("R"), Value::Node(chat)]);
    let bytes = written(&server, &room_schema(), &room);
    let mut client = NodeContext::new::<TagClient>();
    let mut cur = Cursor::new(bytes);
    let back = read_value(&mut cur, &mut client, &room_schema()).unwrap();
    assert!(back.same(&room));
    let got = client.get(chat).unwrap();
    assert!(got.schema.same(&log_schema()));
    assert!(got.val.same(&Value::Record(vec![Value::List(vec![text("a")])])));
}

#[test]
fn a_reference_that_leads_nowhere_is_not_written() {
    let ctx = NodeContext::new::<TagServer>();
    let room = Value::Record(vec![text("R"), Value::Node(9)]);
    let mut out = Vec::new();
    assert!(matches!(write_value(&mut out, &ctx, &room_schema(), &room), Err(Error::Custom(_))));
    let room = Value::Record(vec![text("R"), Value::Node(0)]);
    assert!(matches!(write_value(&mut out, &ctx, &room_schema(), &room), Err(Error::Custom(_))));
}

#[test]
fn a_reference_to_a_node_of_another_shape_is_refused() {
    let mut ctx = NodeContext::new::<TagServer>();
    let other = ctx.create(Schema::Text, text("x"));
    let room = Value::Record(vec![text("R"), Value::Node(other)]);
    let mut out = Vec::new();
    assert!(matches!(write_value(&mut out, &ctx, &room_schema(), &room), Err(Error::Custom(_))));
    let mut client = NodeContext::new::<TagClient>();
    client.insert(1, Schema::Text, text("x"));
    let mut cur = Cursor::new(vec![0, 0, 0, 1, 0, 0, 0, 0]);
    let r = read_value(&mut cur, &mut client, &Schema::Node(Box::new(log_schema())));
    assert!(matches!(r, Err(Error::Custom(_))));
}

#[test]
fn a_node_without_an_id_is_refused() {
    let mut client = NodeContext::new::<TagClient>();
    let mut cur = Cursor::new(vec![0, 0, 0, 0, 0, 0, 0, 0]);
    let r = read_value(&mut cur, &mut client, &Schema::Node(Box::new(log_schema())));
    assert!(matches!(r, Err(Error::Custom(_))));
}

#[test]
fn schemas_and_values_are_compared_by_what_they_hold() {
    assert!(room_schema().same(&room_schema()));
    assert!(!room_schema().same(&log_schema()));
    assert!(room_schema().duplicate().same(&room_schema()));
    assert!(state_schema().duplicate().same(&state_schema()));
    assert!(!text("a").same(&text("b")));
    assert!(!Value::Choice(0, vec![]).same(&Value::Choice(1, vec![])));
    assert!(Value::Node(3).same(&Value::Node(3)));
    assert_eq!(Scalar::Duration(1, 2).kind(), Kind::Duration);
    assert_eq!(Scalar::F32(0).kind(), Kind::F32);
}
