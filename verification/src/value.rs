//! Values of the format, and their mathematical content.

use vstd::prelude::*;

verus! {

/// A value of the format, with its strings borrowed from wherever they
/// stand: from the caller where a value is built to be written, from the
/// input text where it was read.
#[derive(Debug, PartialEq, Eq)]
pub enum Value<'a> {
    Null,
    Bool(bool),
    Unsigned(u64),
    Signed(i64),
    Str(&'a str),
    List(Vec<Value<'a>>),
    /// Key and value pairs in the order in which they were met.
    Dict(Vec<(Value<'a>, Value<'a>)>),
}

/// The kinds of value that the front of a token can announce.
#[derive(Debug, Clone, Copy, PartialEq, Eq, Structural)]
pub enum Kind {
    Null,
    Boolean,
    String,
    Signed,
    Unsigned,
    List,
    Dictionary,
}

/// The forms of an enum variant, by what the variant carries.
#[derive(Debug, Clone, Copy, PartialEq, Eq, Structural)]
pub enum Variant {
    /// Nothing but its name.
    Unit,
    /// One value.
    Newtype,
    /// A row of values.
    Tuple,
    /// Named fields.
    Struct,
}

/// The mathematical content of a [`Value`].
pub enum SpecValue {
    Null,
    Bool(bool),
    Unsigned(u64),
    Signed(i64),
    Str(Seq<char>),
    List(Seq<SpecValue>),
    Dict(Seq<(SpecValue, SpecValue)>),
}

impl<'a> View for Value<'a> {
    type V = SpecValue;

    open spec fn view(&self) -> SpecValue {
        value_view(*self)
    }
}

/// The content of one value.
pub open spec fn value_view(v: Value) -> SpecValue
    decreases v,
{
    match v {
        Value::Null => SpecValue::Null,
        Value::Bool(b) => SpecValue::Bool(b),
        Value::Unsigned(n) => SpecValue::Unsigned(n),
        Value::Signed(n) => SpecValue::Signed(n),
        Value::Str(s) => SpecValue::Str(s@),
        Value::List(items) => SpecValue::List(items_view(items@)),
        Value::Dict(pairs) => SpecValue::Dict(pairs_view(pairs@)),
    }
}

/// The contents of a run of values, one by one.
pub open spec fn items_view(items: Seq<Value>) -> Seq<SpecValue>
    decreases items,
{
    if items.len() == 0 {
        Seq::empty()
    } else {
        items_view(items.drop_last()).push(value_view(items.last()))
    }
}

/// The contents of a run of key and value pairs, one by one.
pub open spec fn pairs_view(pairs: Seq<(Value, Value)>) -> Seq<(SpecValue, SpecValue)>
    decreases pairs,
{
    if pairs.len() == 0 {
        Seq::empty()
    } else {
        pairs_view(pairs.drop_last()).push((value_view(pairs.last().0), value_view(pairs.last().1)))
    }
}

/// A list's content is the contents of its items.
pub proof fn lemma_list_view(items: Vec<Value>)
    ensures
        Value::List(items)@ == SpecValue::List(items_view(items@)),
{
}

/// A dictionary's content is the contents of its pairs.
pub proof fn lemma_dict_view(pairs: Vec<(Value, Value)>)
    ensures
        Value::Dict(pairs)@ == SpecValue::Dict(pairs_view(pairs@)),
{
}

/// One more value at the end is one more content at the end.
pub proof fn lemma_items_view_push(items: Seq<Value>, item: Value)
    ensures
        items_view(items.push(item)) == items_view(items).push(item@),
{
    assert(items.push(item).drop_last() =~= items);
}

/// One more pair at the end is one more pair of contents at the end.
pub proof fn lemma_pairs_view_push(pairs: Seq<(Value, Value)>, pair: (Value, Value))
    ensures
        pairs_view(pairs.push(pair)) == pairs_view(pairs).push((pair.0@, pair.1@)),
{
    assert(pairs.push(pair).drop_last() =~= pairs);
}

} // verus!
