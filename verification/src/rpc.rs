//! Calls that a client makes on a node of the server.
//!
//! A call names a procedure and carries its arguments. What procedures a
//! node has, and what arguments each takes, is declared per shape of node.
//! The library writes and reads calls; what a procedure does is up to the
//! program.

use crate::encode::{Cursor, FromStream, ToStream};
use crate::node::{Graph, NodeContext, NodeView, Role, TagAgnostic};
use crate::value::{fields_view, values_view, Field, FieldView, Value, ValueView};
use crate::visitor::deserializer::{parse_row, read_row};
use crate::visitor::serializer::{text_wire, typed_row, wire_row, write_row};
use crate::{fault_of, Error, Fault};
use vstd::prelude::*;
use vstd::utf8::encode_utf8;

verus! {

/// A procedure that can be called: its name and the arguments that it
/// takes, in order.
#[derive(Debug)]
pub struct Procedure {
    pub name: String,
    pub args: Vec<Field>,
}

/// The model of a `Procedure`.
pub ghost struct ProcedureView {
    pub name: Seq<char>,
    pub args: Seq<FieldView>,
}

impl View for Procedure {
    type V = ProcedureView;

    open spec fn view(&self) -> ProcedureView {
        ProcedureView { name: self.name@, args: fields_view(self.args) }
    }
}

/// The models of a row of procedures.
pub open spec fn procedures_view(table: Seq<Procedure>) -> Seq<ProcedureView> {
    Seq::new(table.len(), |i: int| table[i]@)
}

/// A call that has arrived: the node it is for, the procedure and the
/// arguments.
#[derive(Debug)]
pub struct Call {
    /// The id of the node that the call is made on.
    pub node: u32,
    /// The place of the procedure in the table of the node's procedures.
    pub index: usize,
    /// The name of the procedure.
    pub name: String,
    /// The arguments, in the order in which the procedure declares them.
    pub args: Vec<Value>,
}

/// The model of a `Call`.
pub ghost struct CallView {
    pub node: u32,
    pub index: int,
    pub name: Seq<char>,
    pub args: Seq<ValueView>,
}

impl View for Call {
    type V = CallView;

    open spec fn view(&self) -> CallView {
        CallView {
            node: self.node,
            index: self.index as int,
            name: self.name@,
            args: values_view(self.args),
        }
    }
}

/// What a node does when a call arrives. A program implements this for what
/// holds its procedures.
pub trait CallRPC: Sized {
    /// Carries out `call`. The node and everything else is reached through
    /// `ctx`.
    fn call_rpc(&mut self, ctx: &mut NodeContext, call: Call) -> Result<(), Error>;
}

/// No nodes: what the arguments of a call are written and read among, so
/// that an argument cannot refer to a node.
pub open spec fn no_nodes() -> Graph {
    Map::<u32, NodeView>::empty()
}

/// The first place among the first `n` of `table` where a procedure has the
/// name `name`, if there is one.
pub open spec fn lookup(table: Seq<ProcedureView>, name: Seq<char>, n: nat) -> Option<int>
    decreases n,
{
    if n == 0 || n > table.len() {
        None
    } else {
        match lookup(table, name, (n - 1) as nat) {
            Some(i) => Some(i),
            None => if table[n - 1].name == name {
                Some(n - 1)
            } else {
                None
            },
        }
    }
}

/// What `lookup` finds is a place in the table that holds the name.
pub proof fn lemma_lookup(table: Seq<ProcedureView>, name: Seq<char>, n: nat)
    ensures
        lookup(table, name, n) matches Some(i) ==> 0 <= i < n && i < table.len() && table[i].name
            == name,
    decreases n,
{
    if n > 0 && n <= table.len() {
        lemma_lookup(table, name, (n - 1) as nat);
    }
}

/// A procedure found among the first `n` is found in the same place among
/// the first `m`, for `m` beyond `n`.
pub proof fn lemma_lookup_stays(table: Seq<ProcedureView>, name: Seq<char>, n: nat, m: nat)
    requires
        n <= m <= table.len(),
        lookup(table, name, n) is Some,
    ensures
        lookup(table, name, m) == lookup(table, name, n),
    decreases m - n,
{
    if n < m {
        lemma_lookup_stays(table, name, n, (m - 1) as nat);
    }
}

/// The place in `table` of the procedure with the name `name`.
pub fn find_procedure(table: &Vec<Procedure>, name: &String) -> (r: Option<usize>)
    ensures
        match r {
            Some(i) => lookup(procedures_view(table@), name@, table@.len() as nat) == Some(
                i as int,
            ) && i < table@.len(),
            None => lookup(procedures_view(table@), name@, table@.len() as nat) is None,
        },
{
    let ghost t = procedures_view(table@);
    let mut i: usize = 0;
    while i < table.len()
        invariant
            i <= table.len(),
            t == procedures_view(table@),
            lookup(t, name@, i as nat) is None,
        decreases table.len() - i,
    {
        if table[i].name == *name {
            assert(lookup(t, name@, (i + 1) as nat) == Some(i as int));
            proof {
                lemma_lookup_stays(t, name@, (i + 1) as nat, table@.len() as nat);
            }
            return Some(i);
        }
        i = i + 1;
    }
    None
}

/// The bytes of a call: the name of the procedure, then each argument in
/// the order in which the procedure declares them.
pub open spec fn call_wire(p: ProcedureView, args: Seq<ValueView>) -> Seq<u8> {
    text_wire(p.name) + wire_row(no_nodes(), p.args, args, p.args.len())
}

/// Whether a call can be written: the name is no longer than its count can
/// say, and the arguments are what the procedure declares and refer to no
/// node.
pub open spec fn call_typed(p: ProcedureView, args: Seq<ValueView>) -> bool {
    encode_utf8(p.name).len() <= u32::MAX && typed_row(no_nodes(), p.args, args)
}

/// Writes a call of `procedure` with the arguments `args`.
pub fn write_call(out: &mut Vec<u8>, procedure: &Procedure, args: &Vec<Value>) -> (r: Result<
    (),
    Error,
>)
    ensures
        call_typed(procedure@, values_view(*args)) ==> r is Ok && final(out)@ == old(out)@
            + call_wire(procedure@, values_view(*args)),
        !call_typed(procedure@, values_view(*args)) ==> r is Err && r->Err_0.fault()
            == Fault::Violation,
{
    if procedure.name.as_str().as_bytes().len() > u32::MAX as usize {
        return Err(Error::custom("a name too long for its count"));
    }
    let scratch = NodeContext::new::<TagAgnostic>();
    let _ = procedure.name.encode(out);
    let r = write_row(out, &scratch, &procedure.args, args);
    if r.is_ok() {
        assert(out@ == old(out)@ + (text_wire(procedure@.name) + wire_row(
            no_nodes(),
            procedure@.args,
            values_view(*args),
            procedure@.args.len(),
        )));
    }
    r
}

/// What reading a call yields: the place of the procedure in the table, its
/// name, and the arguments.
pub ghost struct ReadCall {
    pub index: int,
    pub name: Seq<char>,
    pub args: Seq<ValueView>,
}

/// What `bytes` hold when read as a call of one of the procedures of
/// `table`. A name that the table does not have is refused, and so are
/// arguments that bring nodes with them.
pub open spec fn call_parse(table: Seq<ProcedureView>, bytes: Seq<u8>) -> Result<ReadCall, Fault> {
    match <String as FromStream>::parse(bytes) {
        Err(m) => Err(fault_of(m)),
        Ok((name, used)) => match lookup(table, name, table.len()) {
            None => Err(Fault::Violation),
            Some(i) => match parse_row(
                no_nodes(),
                Role::Agnostic,
                table[i].args,
                bytes.skip(used),
                0,
                0,
                Seq::empty(),
            ) {
                Err(f) => Err(f),
                Ok(r) => if r.graph == no_nodes() {
                    Ok(ReadCall { index: i, name, args: r.values })
                } else {
                    Err(Fault::Violation)
                },
            },
        },
    }
}

/// Reads a call on the node `node` of one of the procedures of `table`.
pub fn read_call(input: &mut Cursor, table: &Vec<Procedure>, node: u32) -> (r: Result<Call, Error>)
    ensures
        final(input).bytes() == old(input).bytes(),
        match call_parse(procedures_view(table@), old(input).remaining()) {
            Ok(read) => r is Ok && r->Ok_0@ == (CallView {
                node,
                index: read.index,
                name: read.name,
                args: read.args,
            }),
            Err(f) => r is Err && r->Err_0.fault() == f,
        },
{
    let ghost all = input.remaining();
    proof {
        <String as FromStream>::lemma_parse_bounds(all);
    }
    let name = match String::decode(input) {
        Ok(name) => name,
        Err(e) => {
            return Err(Error::of(e));
        },
    };
    let ghost head = <String as FromStream>::parse(all);
    assert(name@ == head->Ok_0.0);
    assert(input.remaining() == all.skip(head->Ok_0.1));
    assert(procedures_view(table@).len() == table@.len());
    match find_procedure(table, &name) {
        None => Err(Error::custom("requested rpc not found")),
        Some(i) => {
            assert(procedures_view(table@)[i as int].args == fields_view(table@[i as int].args));
            let mut scratch = NodeContext::new::<TagAgnostic>();
            match read_row(input, &mut scratch, &table[i].args) {
                Ok(args) => {
                    if scratch.is_empty() {
                        Ok(Call { node, index: i, name, args })
                    } else {
                        Err(Error::custom("an argument that brings a node with it"))
                    }
                },
                Err(e) => Err(e),
            }
        },
    }
}

/// Reading a call that was written gives the call back.
pub proof fn lemma_call_round_trip(
    table: Seq<ProcedureView>,
    i: int,
    args: Seq<ValueView>,
    rest: Seq<u8>,
)
    requires
        0 <= i < table.len(),
        lookup(table, table[i].name, table.len()) == Some(i),
        call_typed(table[i], args),
    ensures
        call_parse(table, call_wire(table[i], args) + rest) == Ok::<ReadCall, Fault>(
            ReadCall { index: i, name: table[i].name, args },
        ),
{
    let p = table[i];
    let body = wire_row(no_nodes(), p.args, args, p.args.len());
    let all = call_wire(p, args) + rest;
    <String as FromStream>::lemma_round_trip(p.name, body + rest);
    assert(all =~= text_wire(p.name) + (body + rest));
    assert(all.skip(text_wire(p.name).len() as int) =~= body + rest);
    crate::replication::lemma_row_round_trip(
        no_nodes(),
        no_nodes(),
        Role::Agnostic,
        p.args,
        args,
        0,
        rest,
    );
    crate::replication::lemma_replica_twice(
        no_nodes(),
        no_nodes(),
        Role::Agnostic,
        Set::empty(),
        Set::empty(),
    );
    assert(args.take(0) =~= Seq::<ValueView>::empty());
    crate::replication::lemma_reach_row_known(no_nodes(), p.args, args, p.args.len());
    assert(crate::replication::replica(
        no_nodes(),
        no_nodes(),
        Role::Agnostic,
        crate::replication::reach_row(no_nodes(), p.args, args, p.args.len()),
    ) =~= no_nodes());
}

} // verus!
