//! The values that can be replicated and the schemas that describe them.
//!
//! A schema says what shape a value has; a value holds the data. Every pass
//! over a value (writing, reading, replaying an update, refreshing the
//! connections) walks the value along its schema.

use vstd::prelude::*;

verus! {

/// The kinds of fixed-width value.
#[derive(Clone, Copy, Debug, PartialEq, Eq, Structural)]
pub enum Kind {
    U8,
    I8,
    U16,
    I16,
    U32,
    I32,
    U64,
    I64,
    /// A 32-bit float, held as its bit pattern.
    F32,
    /// A 64-bit float, held as its bit pattern.
    F64,
    Bool,
    /// A span of time: whole seconds and the nanoseconds beyond them.
    Duration,
}

/// A fixed-width value.
#[derive(Clone, Copy, Debug, PartialEq, Eq, Structural)]
pub enum Scalar {
    U8(u8),
    I8(i8),
    U16(u16),
    I16(i16),
    U32(u32),
    I32(i32),
    U64(u64),
    I64(i64),
    /// The bit pattern of a 32-bit float.
    F32(u32),
    /// The bit pattern of a 64-bit float.
    F64(u64),
    Bool(bool),
    /// Whole seconds, and the nanoseconds beyond them.
    Duration(u64, u32),
}

impl Scalar {
    /// The kind of this value.
    pub open spec fn spec_kind(self) -> Kind {
        match self {
            Scalar::U8(_) => Kind::U8,
            Scalar::I8(_) => Kind::I8,
            Scalar::U16(_) => Kind::U16,
            Scalar::I16(_) => Kind::I16,
            Scalar::U32(_) => Kind::U32,
            Scalar::I32(_) => Kind::I32,
            Scalar::U64(_) => Kind::U64,
            Scalar::I64(_) => Kind::I64,
            Scalar::F32(_) => Kind::F32,
            Scalar::F64(_) => Kind::F64,
            Scalar::Bool(_) => Kind::Bool,
            Scalar::Duration(_, _) => Kind::Duration,
        }
    }

    /// The kind of this value.
    #[verifier::when_used_as_spec(spec_kind)]
    pub fn kind(self) -> (k: Kind)
        ensures
            k == self.spec_kind(),
    {
        match self {
            Scalar::U8(_) => Kind::U8,
            Scalar::I8(_) => Kind::I8,
            Scalar::U16(_) => Kind::U16,
            Scalar::I16(_) => Kind::I16,
            Scalar::U32(_) => Kind::U32,
            Scalar::I32(_) => Kind::I32,
            Scalar::U64(_) => Kind::U64,
            Scalar::I64(_) => Kind::I64,
            Scalar::F32(_) => Kind::F32,
            Scalar::F64(_) => Kind::F64,
            Scalar::Bool(_) => Kind::Bool,
            Scalar::Duration(_, _) => Kind::Duration,
        }
    }
}

/// A named member of a record or of a variant. A member without a name has
/// the empty string for one.
#[derive(Debug)]
pub struct Field {
    pub name: String,
    pub ty: Schema,
}

/// The shape of a value.
#[derive(Debug)]
pub enum Schema {
    /// A fixed-width value of the given kind.
    Scalar(Kind),
    /// A UTF-8 string.
    Text,
    /// An ordered sequence of items of one shape.
    List(Box<Schema>),
    /// A mapping from keys of one shape to values of another.
    Dict(Box<Schema>, Box<Schema>),
    /// A value that may be absent.
    Maybe(Box<Schema>),
    /// A struct or tuple: its members in declaration order.
    Record(Vec<Field>),
    /// An enum: for each variant, its members in declaration order.
    Choice(Vec<Vec<Field>>),
    /// A reference to a node whose value has the given shape.
    Node(Box<Schema>),
}

/// One entry of a mapping.
#[derive(Debug)]
pub struct Entry {
    pub key: Value,
    pub val: Value,
}

/// A value.
#[derive(Debug)]
pub enum Value {
    Scalar(Scalar),
    Text(String),
    List(Vec<Value>),
    /// The entries of a mapping, no key twice.
    Dict(Vec<Entry>),
    Maybe(Option<Box<Value>>),
    Record(Vec<Value>),
    /// The number of the variant, and the variant's members.
    Choice(u8, Vec<Value>),
    /// The id of the node referred to.
    Node(u32),
}

/// The model of a `Field`.
pub ghost struct FieldView {
    pub name: Seq<char>,
    pub ty: SchemaView,
}

/// The model of a `Schema`.
pub ghost enum SchemaView {
    Scalar(Kind),
    Text,
    List(Box<SchemaView>),
    Dict(Box<SchemaView>, Box<SchemaView>),
    Maybe(Box<SchemaView>),
    Record(Seq<FieldView>),
    Choice(Seq<Seq<FieldView>>),
    Node(Box<SchemaView>),
}

/// The model of a `Value`.
pub ghost enum ValueView {
    Scalar(Scalar),
    Text(Seq<char>),
    List(Seq<ValueView>),
    Dict(Seq<(ValueView, ValueView)>),
    Maybe(Option<Box<ValueView>>),
    Record(Seq<ValueView>),
    Choice(u8, Seq<ValueView>),
    Node(u32),
}

/// The model of a schema.
pub open spec fn schema_view(s: Schema) -> SchemaView
    decreases s,
{
    match s {
        Schema::Scalar(k) => SchemaView::Scalar(k),
        Schema::Text => SchemaView::Text,
        Schema::List(item) => SchemaView::List(Box::new(schema_view(*item))),
        Schema::Dict(key, val) => SchemaView::Dict(
            Box::new(schema_view(*key)),
            Box::new(schema_view(*val)),
        ),
        Schema::Maybe(inner) => SchemaView::Maybe(Box::new(schema_view(*inner))),
        Schema::Record(fields) => SchemaView::Record(fields_view(fields)),
        Schema::Choice(variants) => SchemaView::Choice(
            Seq::new(
                variants@.len(),
                |i: int|
                    if 0 <= i < variants@.len() {
                        fields_view(variants@[i])
                    } else {
                        Seq::empty()
                    },
            ),
        ),
        Schema::Node(inner) => SchemaView::Node(Box::new(schema_view(*inner))),
    }
}

/// The models of the members of a record or variant.
pub open spec fn fields_view(fields: Vec<Field>) -> Seq<FieldView>
    decreases fields,
{
    Seq::new(
        fields@.len(),
        |i: int|
            if 0 <= i < fields@.len() {
                FieldView { name: fields@[i].name@, ty: schema_view(fields@[i].ty) }
            } else {
                FieldView { name: Seq::empty(), ty: SchemaView::Text }
            },
    )
}

/// The model of a value.
pub open spec fn value_view(v: Value) -> ValueView
    decreases v,
{
    match v {
        Value::Scalar(s) => ValueView::Scalar(s),
        Value::Text(t) => ValueView::Text(t@),
        Value::List(items) => ValueView::List(values_view(items)),
        Value::Dict(entries) => ValueView::Dict(
            Seq::new(
                entries@.len(),
                |i: int|
                    if 0 <= i < entries@.len() {
                        (value_view(entries@[i].key), value_view(entries@[i].val))
                    } else {
                        (ValueView::Node(0), ValueView::Node(0))
                    },
            ),
        ),
        Value::Maybe(inner) => match inner {
            Some(b) => ValueView::Maybe(Some(Box::new(value_view(*b)))),
            None => ValueView::Maybe(None),
        },
        Value::Record(members) => ValueView::Record(values_view(members)),
        Value::Choice(tag, members) => ValueView::Choice(tag, values_view(members)),
        Value::Node(id) => ValueView::Node(id),
    }
}

/// The models of a row of values.
pub open spec fn values_view(items: Vec<Value>) -> Seq<ValueView>
    decreases items,
{
    Seq::new(
        items@.len(),
        |i: int|
            if 0 <= i < items@.len() {
                value_view(items@[i])
            } else {
                ValueView::Node(0)
            },
    )
}

impl View for Field {
    type V = FieldView;

    open spec fn view(&self) -> FieldView {
        FieldView { name: self.name@, ty: schema_view(self.ty) }
    }
}

impl View for Schema {
    type V = SchemaView;

    open spec fn view(&self) -> SchemaView {
        schema_view(*self)
    }
}

impl View for Value {
    type V = ValueView;

    open spec fn view(&self) -> ValueView {
        value_view(*self)
    }
}

/// Whether two rows of members have the same names and shapes.
pub fn same_fields(a: &Vec<Field>, b: &Vec<Field>) -> (r: bool)
    ensures
        r == (fields_view(*a) == fields_view(*b)),
    decreases a,
{
    if a.len() != b.len() {
        assert(fields_view(*a).len() != fields_view(*b).len());
        return false;
    }
    let mut i: usize = 0;
    while i < a.len()
        invariant
            i <= a.len(),
            a.len() == b.len(),
            forall|k: int| 0 <= k < i ==> fields_view(*a)[k] == fields_view(*b)[k],
        decreases a.len() - i,
    {
        let same_name = a[i].name == b[i].name;
        if !same_name || !a[i].ty.same(&b[i].ty) {
            assert(fields_view(*a)[i as int] != fields_view(*b)[i as int]);
            return false;
        }
        i = i + 1;
    }
    assert(fields_view(*a) =~= fields_view(*b));
    true
}

impl Schema {
    /// Whether two schemas describe the same shape.
    pub fn same(&self, other: &Schema) -> (r: bool)
        ensures
            r == (self@ == other@),
        decreases self,
    {
        match (self, other) {
            (Schema::Scalar(a), Schema::Scalar(b)) => *a == *b,
            (Schema::Text, Schema::Text) => true,
            (Schema::List(a), Schema::List(b)) => a.same(b),
            (Schema::Dict(ak, av), Schema::Dict(bk, bv)) => ak.same(bk) && av.same(bv),
            (Schema::Maybe(a), Schema::Maybe(b)) => a.same(b),
            (Schema::Record(a), Schema::Record(b)) => same_fields(a, b),
            (Schema::Choice(a), Schema::Choice(b)) => {
                if a.len() != b.len() {
                    assert(self@->Choice_0.len() != other@->Choice_0.len());
                    return false;
                }
                let mut i: usize = 0;
                while i < a.len()
                    invariant
                        i <= a.len(),
                        a.len() == b.len(),
                        *self == Schema::Choice(*a),
                        *other == Schema::Choice(*b),
                        forall|k: int| 0 <= k < i ==> self@->Choice_0[k] == other@->Choice_0[k],
                    decreases a.len() - i,
                {
                    if !same_fields(&a[i], &b[i]) {
                        assert(self@->Choice_0[i as int] != other@->Choice_0[i as int]);
                        return false;
                    }
                    i = i + 1;
                }
                assert(self@->Choice_0 =~= other@->Choice_0);
                true
            },
            (Schema::Node(a), Schema::Node(b)) => a.same(b),
            _ => false,
        }
    }
}

/// A copy of a row of members.
pub fn duplicate_fields(fields: &Vec<Field>) -> (r: Vec<Field>)
    ensures
        fields_view(r) == fields_view(*fields),
    decreases fields,
{
    let mut out: Vec<Field> = Vec::new();
    let mut i: usize = 0;
    while i < fields.len()
        invariant
            i <= fields.len(),
            out@.len() == i,
            forall|k: int| 0 <= k < i ==> fields_view(out)[k] == fields_view(*fields)[k],
        decreases fields.len() - i,
    {
        let ghost before = out;
        let f = Field { name: fields[i].name.clone(), ty: fields[i].ty.duplicate() };
        out.push(f);
        assert forall|k: int| 0 <= k < i + 1 implies fields_view(out)[k] == fields_view(
            *fields,
        )[k] by {
            if k < i {
                assert(out@[k] == before@[k]);
                assert(fields_view(before)[k] == fields_view(*fields)[k]);
            }
        }
        i = i + 1;
    }
    assert(fields_view(out) =~= fields_view(*fields));
    out
}

impl Schema {
    /// A copy of the schema.
    pub fn duplicate(&self) -> (r: Schema)
        ensures
            r@ == self@,
        decreases self,
    {
        match self {
            Schema::Scalar(k) => Schema::Scalar(*k),
            Schema::Text => Schema::Text,
            Schema::List(e) => Schema::List(Box::new(e.duplicate())),
            Schema::Dict(k, w) => Schema::Dict(Box::new(k.duplicate()), Box::new(w.duplicate())),
            Schema::Maybe(e) => Schema::Maybe(Box::new(e.duplicate())),
            Schema::Record(fields) => Schema::Record(duplicate_fields(fields)),
            Schema::Choice(variants) => {
                let mut out: Vec<Vec<Field>> = Vec::new();
                let mut i: usize = 0;
                while i < variants.len()
                    invariant
                        i <= variants.len(),
                        *self == Schema::Choice(*variants),
                        out@.len() == i,
                        forall|k: int|
                            0 <= k < i ==> fields_view(#[trigger] out@[k]) == fields_view(
                                variants@[k],
                            ),
                    decreases variants.len() - i,
                {
                    assert(self->Choice_0 == *variants);
                    let row = duplicate_fields(&variants[i]);
                    out.push(row);
                    i = i + 1;
                }
                let r = Schema::Choice(out);
                assert(r@->Choice_0 =~= self@->Choice_0);
                r
            },
            Schema::Node(e) => Schema::Node(Box::new(e.duplicate())),
        }
    }
}

/// Whether two rows of values are alike, item by item.
pub fn same_values(a: &Vec<Value>, b: &Vec<Value>) -> (r: bool)
    ensures
        r == (values_view(*a) == values_view(*b)),
    decreases a,
{
    if a.len() != b.len() {
        assert(values_view(*a).len() != values_view(*b).len());
        return false;
    }
    let mut i: usize = 0;
    while i < a.len()
        invariant
            i <= a.len(),
            a.len() == b.len(),
            forall|k: int| 0 <= k < i ==> values_view(*a)[k] == values_view(*b)[k],
        decreases a.len() - i,
    {
        if !a[i].same(&b[i]) {
            assert(values_view(*a)[i as int] != values_view(*b)[i as int]);
            return false;
        }
        i = i + 1;
    }
    assert(values_view(*a) =~= values_view(*b));
    true
}

impl Value {
    /// Whether two values are alike: the same data in the same shape.
    pub fn same(&self, other: &Value) -> (r: bool)
        ensures
            r == (self@ == other@),
        decreases self,
    {
        match (self, other) {
            (Value::Scalar(a), Value::Scalar(b)) => *a == *b,
            (Value::Text(a), Value::Text(b)) => *a == *b,
            (Value::List(a), Value::List(b)) => same_values(a, b),
            (Value::Dict(a), Value::Dict(b)) => {
                if a.len() != b.len() {
                    assert(self@->Dict_0.len() != other@->Dict_0.len());
                    return false;
                }
                let mut i: usize = 0;
                while i < a.len()
                    invariant
                        i <= a.len(),
                        a.len() == b.len(),
                        *self == Value::Dict(*a),
                        *other == Value::Dict(*b),
                        forall|k: int| 0 <= k < i ==> self@->Dict_0[k] == other@->Dict_0[k],
                    decreases a.len() - i,
                {
                    if !a[i].key.same(&b[i].key) || !a[i].val.same(&b[i].val) {
                        assert(self@->Dict_0[i as int] != other@->Dict_0[i as int]);
                        return false;
                    }
                    i = i + 1;
                }
                assert(self@->Dict_0 =~= other@->Dict_0);
                true
            },
            (Value::Maybe(a), Value::Maybe(b)) => match (a, b) {
                (Some(x), Some(y)) => x.same(y),
                (None, None) => true,
                _ => false,
            },
            (Value::Record(a), Value::Record(b)) => same_values(a, b),
            (Value::Choice(ta, a), Value::Choice(tb, b)) => *ta == *tb && same_values(a, b),
            (Value::Node(a), Value::Node(b)) => *a == *b,
            _ => false,
        }
    }
}

/// Whether no key occurs twice among `entries`.
pub open spec fn distinct_keys(entries: Seq<(ValueView, ValueView)>) -> bool {
    forall|i: int, j: int|
        0 <= i < j < entries.len() ==> (#[trigger] entries[i]).0 != (#[trigger] entries[j]).0
}

/// Where `key` stands among the first `n` of `entries`, if it does: the
/// first such place.
pub open spec fn key_index(entries: Seq<(ValueView, ValueView)>, key: ValueView, n: nat) -> Option<
    int,
>
    decreases n,
{
    if n == 0 || n > entries.len() {
        None
    } else {
        match key_index(entries, key, (n - 1) as nat) {
            Some(i) => Some(i),
            None => if entries[n - 1].0 == key {
                Some(n - 1)
            } else {
                None
            },
        }
    }
}

/// The entries after `key` has been given the value `val`: in the place
/// where the key stood, or at the end where it did not.
pub open spec fn dict_put(entries: Seq<(ValueView, ValueView)>, key: ValueView, val: ValueView) -> Seq<
    (ValueView, ValueView),
> {
    match key_index(entries, key, entries.len()) {
        Some(i) => entries.update(i, (key, val)),
        None => entries.push((key, val)),
    }
}

/// The entries after the one with `key` has been taken out, if there was one.
pub open spec fn dict_cut(entries: Seq<(ValueView, ValueView)>, key: ValueView) -> Seq<
    (ValueView, ValueView),
> {
    match key_index(entries, key, entries.len()) {
        Some(i) => entries.remove(i),
        None => entries,
    }
}

/// What `key_index` finds: a place that holds the key, with none before it;
/// or that no place holds it.
pub proof fn lemma_key_index(entries: Seq<(ValueView, ValueView)>, key: ValueView, n: nat)
    requires
        n <= entries.len(),
    ensures
        match key_index(entries, key, n) {
            Some(i) => 0 <= i < n && entries[i].0 == key && forall|j: int|
                0 <= j < i ==> (#[trigger] entries[j]).0 != key,
            None => forall|j: int| 0 <= j < n ==> (#[trigger] entries[j]).0 != key,
        },
    decreases n,
{
    if n > 0 {
        lemma_key_index(entries, key, (n - 1) as nat);
    }
}

/// The model of the entries of a mapping.
pub open spec fn entries_view(entries: Vec<Entry>) -> Seq<(ValueView, ValueView)> {
    Seq::new(entries@.len(), |i: int| (entries@[i].key@, entries@[i].val@))
}

/// Where `key` stands among `entries`, if it does.
pub fn find_key(entries: &Vec<Entry>, key: &Value) -> (r: Option<usize>)
    ensures
        match r {
            Some(i) => key_index(entries_view(*entries), key@, entries@.len() as nat) == Some(
                i as int,
            ) && i < entries@.len(),
            None => key_index(entries_view(*entries), key@, entries@.len() as nat) is None,
        },
{
    let ghost es = entries_view(*entries);
    let mut i: usize = 0;
    while i < entries.len()
        invariant
            i <= entries.len(),
            es == entries_view(*entries),
            key_index(es, key@, i as nat) is None,
        decreases entries.len() - i,
    {
        if entries[i].key.same(key) {
            assert(key_index(es, key@, (i + 1) as nat) == Some(i as int));
            proof {
                lemma_key_index_stays(es, key@, (i + 1) as nat, entries@.len() as nat);
            }
            return Some(i);
        }
        i = i + 1;
    }
    None
}

/// A key found among the first `n` entries is found in the same place among
/// the first `m`, for `m` beyond `n`.
pub proof fn lemma_key_index_stays(
    entries: Seq<(ValueView, ValueView)>,
    key: ValueView,
    n: nat,
    m: nat,
)
    requires
        n <= m <= entries.len(),
        key_index(entries, key, n) is Some,
    ensures
        key_index(entries, key, m) == key_index(entries, key, n),
    decreases m - n,
{
    if n < m {
        lemma_key_index_stays(entries, key, n, (m - 1) as nat);
    }
}

/// Whether no key occurs twice among `entries`.
pub fn keys_distinct(entries: &Vec<Entry>) -> (r: bool)
    ensures
        r == distinct_keys(entries_view(*entries)),
{
    let ghost es = entries_view(*entries);
    let mut j: usize = 0;
    while j < entries.len()
        invariant
            j <= entries.len(),
            es == entries_view(*entries),
            forall|a: int, b: int| 0 <= a < b < j ==> (#[trigger] es[a]).0 != (#[trigger] es[b]).0,
        decreases entries.len() - j,
    {
        let mut i: usize = 0;
        while i < j
            invariant
                i <= j < entries.len(),
                es == entries_view(*entries),
                forall|a: int| 0 <= a < i ==> (#[trigger] es[a]).0 != es[j as int].0,
            decreases j - i,
        {
            if entries[i].key.same(&entries[j].key) {
                assert(es[i as int].0 == es[j as int].0);
                return false;
            }
            i = i + 1;
        }
        j = j + 1;
    }
    true
}

/// The model of a schema is of the kind that the schema is of, and the model
/// of a value of the kind that the value is of.
pub proof fn lemma_same_kind(s: Schema, v: Value)
    ensures
        s is Scalar <==> s@ is Scalar,
        s is Text <==> s@ is Text,
        s is List <==> s@ is List,
        s is Dict <==> s@ is Dict,
        s is Maybe <==> s@ is Maybe,
        s is Record <==> s@ is Record,
        s is Choice <==> s@ is Choice,
        s is Node <==> s@ is Node,
        v is Scalar <==> v@ is Scalar,
        v is Text <==> v@ is Text,
        v is List <==> v@ is List,
        v is Dict <==> v@ is Dict,
        v is Maybe <==> v@ is Maybe,
        v is Record <==> v@ is Record,
        v is Choice <==> v@ is Choice,
        v is Node <==> v@ is Node,
        s matches Schema::List(e) ==> s@ == SchemaView::List(Box::new((*e)@)),
        s matches Schema::Maybe(e) ==> s@ == SchemaView::Maybe(Box::new((*e)@)),
        s matches Schema::Node(e) ==> s@ == SchemaView::Node(Box::new((*e)@)),
        s matches Schema::Dict(k, w) ==> s@ == SchemaView::Dict(Box::new((*k)@), Box::new((*w)@)),
        s matches Schema::Record(fields) ==> s@ == SchemaView::Record(
            fields_view(fields),
        ),
        s matches Schema::Choice(variants) ==> s@->Choice_0.len() == variants@.len() && forall|
            i: int,
        |
            0 <= i < variants@.len() ==> (#[trigger] s@->Choice_0[i]) == fields_view(
                variants@[i],
            ),
        v matches Value::List(items) ==> v@ == ValueView::List(values_view(items)),
        v matches Value::Record(members) ==> v@ == ValueView::Record(
            values_view(members),
        ),
        v matches Value::Choice(tag, members) ==> v@ == ValueView::Choice(
            tag,
            values_view(members),
        ),
        v matches Value::Dict(entries) ==> v@ == ValueView::Dict(entries_view(entries)),
        v matches Value::Maybe(Some(inner)) ==> v@ == ValueView::Maybe(Some(Box::new((*inner)@))),
        v matches Value::Maybe(None) ==> v@ == ValueView::Maybe(None),
        v matches Value::Node(id) ==> v@ == ValueView::Node(id),
{
    match v {
        Value::Dict(entries) => {
            assert(v@->Dict_0 =~= entries_view(entries));
        },
        _ => {},
    }
}

} // verus!
