use vstd::prelude::*;

verus! {

/// A value as the codec sees it: scalars, sequences, maps with string keys,
/// and enum variants in their native shape. Floats travel as their IEEE-754 bits.
#[derive(Debug, PartialEq)]
pub enum Value {
    Bool(bool),
    /// A non-negative integer.
    UInt(u64),
    /// A signed integer.
    Int(i64),
    F32(u32),
    F64(u64),
    Str(String),
    List(Vec<Value>),
    /// Ordered (key, value) pairs.
    Record(Vec<(String, Value)>),
    /// An enum variant by name, with its payload if it has one.
    Variant(String, Option<Box<Value>>),
}

/// The mathematical model of a `Value`.
pub enum Val {
    Bool(bool),
    UInt(u64),
    Int(i64),
    F32(u32),
    F64(u64),
    Str(Seq<char>),
    List(Seq<Val>),
    Record(Seq<(Seq<char>, Val)>),
    Variant(Seq<char>, Option<Box<Val>>),
}

pub open spec fn value_view(v: Value) -> Val
    decreases v,
{
    match v {
        Value::Bool(b) => Val::Bool(b),
        Value::UInt(x) => Val::UInt(x),
        Value::Int(x) => Val::Int(x),
        Value::F32(x) => Val::F32(x),
        Value::F64(x) => Val::F64(x),
        Value::Str(s) => Val::Str(s@),
        Value::List(items) => Val::List(list_view(items@)),
        Value::Record(entries) => Val::Record(entries_view(entries@)),
        Value::Variant(name, payload) => match payload {
            Some(p) => Val::Variant(name@, Some(Box::new(value_view(*p)))),
            None => Val::Variant(name@, None),
        },
    }
}

pub open spec fn list_view(s: Seq<Value>) -> Seq<Val>
    decreases s,
{
    if s.len() == 0 {
        Seq::empty()
    } else {
        list_view(s.drop_last()).push(value_view(s.last()))
    }
}

pub open spec fn entries_view(s: Seq<(String, Value)>) -> Seq<(Seq<char>, Val)>
    decreases s,
{
    if s.len() == 0 {
        Seq::empty()
    } else {
        entries_view(s.drop_last()).push((s.last().0@, value_view(s.last().1)))
    }
}

impl View for Value {
    type V = Val;

    open spec fn view(&self) -> Val {
        value_view(*self)
    }
}

pub proof fn lemma_list_view(s: Seq<Value>)
    ensures
        list_view(s).len() == s.len(),
        forall|i: int| 0 <= i < s.len() ==> #[trigger] list_view(s)[i] == value_view(s[i]),
    decreases s.len(),
{
    if s.len() > 0 {
        lemma_list_view(s.drop_last());
    }
}

pub proof fn lemma_entries_view(s: Seq<(String, Value)>)
    ensures
        entries_view(s).len() == s.len(),
        forall|i: int|
            0 <= i < s.len() ==> #[trigger] entries_view(s)[i] == (s[i].0@, value_view(s[i].1)),
    decreases s.len(),
{
    if s.len() > 0 {
        lemma_entries_view(s.drop_last());
    }
}

pub proof fn lemma_list_view_push(s: Seq<Value>, x: Value)
    ensures
        list_view(s.push(x)) == list_view(s).push(value_view(x)),
{
    assert(s.push(x).drop_last() =~= s);
}

pub proof fn lemma_entries_view_push(s: Seq<(String, Value)>, x: (String, Value))
    ensures
        entries_view(s.push(x)) == entries_view(s).push((x.0@, value_view(x.1))),
{
    assert(s.push(x).drop_last() =~= s);
}

} // verus!
