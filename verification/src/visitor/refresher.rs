//! Working out anew who hears of the nodes that a value refers to.

use crate::links::{walked, Pass};
use crate::node::{ContextView, NodeContext};
use crate::value::{Schema, Value};
use crate::{Error, Reflect, Visitor};
use vstd::prelude::*;

verus! {

/// A visitor that writes and reads nothing: for every node that it is shown,
/// directly or through other nodes, it works out anew which connections
/// hear of the node.
pub struct Refresher;

impl Visitor for Refresher {
    fn visit(&mut self, ctx: &mut NodeContext, name: &str, schema: &Schema, val: &mut Value) -> (r:
        Result<(), Error>)
        ensures
            r is Ok,
            final(val)@ == old(val)@,
            final(ctx)@ == (ContextView {
                nodes: walked(old(ctx)@.nodes, Pass::Refresh, schema@, old(val)@),
                ..old(ctx)@
            }),
    {
        ctx.walk_over(Pass::Refresh, schema, val);
        Ok(())
    }
}

impl Reflect<Refresher> for Value {
    fn reflect(&mut self, ctx: &mut NodeContext, schema: &Schema, visitor: &mut Refresher) -> (r:
        Result<(), Error>)
        ensures
            r is Ok,
            final(self)@ == old(self)@,
            final(ctx)@ == (ContextView {
                nodes: walked(old(ctx)@.nodes, Pass::Refresh, schema@, old(self)@),
                ..old(ctx)@
            }),
    {
        ctx.walk_over(Pass::Refresh, schema, self);
        Ok(())
    }
}

} // verus!
