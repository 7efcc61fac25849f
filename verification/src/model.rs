//! The closed value model: the shapes an argument of a tool call can take,
//! and the list of collected tool calls.
//!
//! A numeric value is carried as its validated literal text (see
//! `numeric`): the text is guaranteed to denote a 64-bit float, and the
//! boundary that consumes the model decodes it. No integer/float
//! distinction is preserved.

use vstd::prelude::*;

verus! {

/// Mathematical shape of a `Value`.
pub enum SpecValue {
    Text(Seq<char>),
    Number(Seq<char>),
    Boolean(bool),
    Null,
    Object(Seq<SpecField>),
    Array(Seq<SpecValue>),
}

/// Mathematical shape of a `Field`: one key/value pair of an object.
pub struct SpecField {
    pub name: Seq<char>,
    pub value: SpecValue,
}

/// Mathematical shape of a `ToolCall`.
pub struct SpecToolCall {
    pub name: Seq<char>,
    pub arguments: Option<Seq<SpecField>>,
}

/// One argument value: exactly one variant is active per instance.
#[derive(Debug, PartialEq, Eq)]
pub enum Value {
    Text(String),
    Number(String),
    Boolean(bool),
    Null,
    Object(Struct),
    Array(ListValue),
}

/// One key/value pair of an object.
#[derive(Debug, PartialEq, Eq)]
pub struct Field {
    pub name: String,
    pub value: Value,
}

/// An ordered sequence of fields. Keys are unique within one `Struct`;
/// the builder enforces this, the type itself does not.
#[derive(Debug, PartialEq, Eq)]
pub struct Struct {
    pub fields: Vec<Field>,
}

/// An ordered sequence of values; order reflects source order.
#[derive(Debug, PartialEq, Eq)]
pub struct ListValue {
    pub values: Vec<Value>,
}

/// One requested invocation: a name (possibly empty where the grammar
/// omitted it) and an optional argument object.
#[derive(Debug, PartialEq, Eq)]
pub struct ToolCall {
    pub name: String,
    pub arguments: Option<Struct>,
}

/// The tool calls found in one expression, in source order.
#[derive(Debug, PartialEq, Eq)]
pub struct ToolCalls {
    pub tool_calls: Vec<ToolCall>,
}

pub open spec fn fields_view(fs: Seq<Field>) -> Seq<SpecField>
    decreases fs,
{
    if fs.len() == 0 {
        Seq::empty()
    } else {
        fields_view(fs.drop_last()).push(fs.last()@)
    }
}

pub open spec fn values_view(vs: Seq<Value>) -> Seq<SpecValue>
    decreases vs,
{
    if vs.len() == 0 {
        Seq::empty()
    } else {
        values_view(vs.drop_last()).push(vs.last()@)
    }
}

impl View for Value {
    type V = SpecValue;

    open spec fn view(&self) -> SpecValue
        decreases self,
    {
        match self {
            Value::Text(s) => SpecValue::Text(s@),
            Value::Number(t) => SpecValue::Number(t@),
            Value::Boolean(b) => SpecValue::Boolean(*b),
            Value::Null => SpecValue::Null,
            Value::Object(s) => SpecValue::Object(fields_view(s.fields@)),
            Value::Array(l) => SpecValue::Array(values_view(l.values@)),
        }
    }
}

impl View for Field {
    type V = SpecField;

    open spec fn view(&self) -> SpecField
        decreases self,
    {
        SpecField { name: self.name@, value: self.value@ }
    }
}

impl View for Struct {
    type V = Seq<SpecField>;

    open spec fn view(&self) -> Seq<SpecField> {
        fields_view(self.fields@)
    }
}

impl View for ListValue {
    type V = Seq<SpecValue>;

    open spec fn view(&self) -> Seq<SpecValue> {
        values_view(self.values@)
    }
}

impl View for ToolCall {
    type V = SpecToolCall;

    open spec fn view(&self) -> SpecToolCall {
        SpecToolCall {
            name: self.name@,
            arguments: match self.arguments {
                Some(s) => Some(fields_view(s.fields@)),
                None => None,
            },
        }
    }
}

pub open spec fn tool_calls_view(ts: Seq<ToolCall>) -> Seq<SpecToolCall>
    decreases ts,
{
    if ts.len() == 0 {
        Seq::empty()
    } else {
        tool_calls_view(ts.drop_last()).push(ts.last()@)
    }
}

impl View for ToolCalls {
    type V = Seq<SpecToolCall>;

    open spec fn view(&self) -> Seq<SpecToolCall> {
        tool_calls_view(self.tool_calls@)
    }
}

/// The view, stated by index: what `fields_view` says of each position.
pub proof fn lemma_fields_view_index(fs: Seq<Field>)
    ensures
        fields_view(fs).len() == fs.len(),
        forall|i: int| 0 <= i < fs.len() ==> fields_view(fs)[i] == #[trigger] fs[i]@,
    decreases fs,
{
    if fs.len() > 0 {
        lemma_fields_view_index(fs.drop_last());
        let prev = fields_view(fs.drop_last());
        assert(fs.drop_last().len() == fs.len() - 1);
        assert(fields_view(fs) == prev.push(fs.last()@));
        assert forall|i: int| 0 <= i < fs.len() implies fields_view(fs)[i] == #[trigger] fs[i]@ by {
            assert(fields_view(fs)[i] == prev.push(fs.last()@)[i]);
            if i < fs.len() - 1 {
                assert(prev.push(fs.last()@)[i] == prev[i]);
                assert(fs.drop_last()[i] == fs[i]);
            } else {
                assert(prev.push(fs.last()@)[i] == fs.last()@);
                assert(fs.last() == fs[i]);
            }
        }
    }
}



} // verus!
