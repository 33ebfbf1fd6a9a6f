use base64::Engine;
use vstd::prelude::*;

use crate::diff::{Delta, Diff, DiffResult, Item, Node};

verus! {

/// How a field's value is stored in the source document.
#[derive(Clone, Copy, Debug, PartialEq, Eq, Structural)]
pub enum ValueType {
    Binary,
    Unprotected,
    Protected,
}

/// A named scalar value of a record.
#[derive(Clone, Debug, PartialEq, Eq)]
pub struct Field {
    name: String,
    value: String,
    kind: ValueType,
}

pub struct FieldView {
    pub name: Seq<char>,
    pub value: Seq<char>,
    pub kind: ValueType,
}

impl View for Field {
    type V = FieldView;

    closed spec fn view(&self) -> FieldView {
        FieldView { name: self.name@, value: self.value@, kind: self.kind }
    }
}

/// What the standard base64 alphabet without padding makes of `b`.
pub uninterp spec fn base64_of(b: Seq<u8>) -> Seq<char>;

/// Relies on base64's `STANDARD_NO_PAD` engine and its `Engine::encode`: the text is
/// a function of the bytes alone, and it panics only when the encoded length overflows
/// `usize`, which the bound on the input rules out.
#[verifier::external_body]
fn encode_base64(bytes: &[u8]) -> (r: String)
    requires
        bytes@.len() <= usize::MAX / 2,
    ensures
        r@ == base64_of(bytes@),
{
    base64::engine::general_purpose::STANDARD_NO_PAD.encode(bytes)
}

impl Field {
    pub fn new(name: String, value: String, kind: ValueType) -> (r: Field)
        ensures
            r@ == (FieldView { name: name@, value: value@, kind }),
    {
        Field { name, value, kind }
    }

    /// A binary field: its value is the bytes in unpadded standard base64.
    pub fn from_bytes(name: String, bytes: &Vec<u8>) -> (r: Field)
        requires
            bytes@.len() <= usize::MAX / 2,
        ensures
            r@ == (FieldView { name: name@, value: base64_of(bytes@), kind: ValueType::Binary }),
    {
        let value = encode_base64(bytes.as_slice());
        Field { name, value, kind: ValueType::Binary }
    }

    pub fn value(&self) -> (r: &str)
        ensures
            r@ == self@.value,
    {
        self.value.as_str()
    }

    pub fn kind(&self) -> (r: ValueType)
        ensures
            r == self@.kind,
    {
        self.kind
    }
}

/// Two fields are identical when their values are; name and kind do not count.
pub open spec fn field_delta(a: FieldView, b: FieldView) -> Delta {
    if a.value == b.value {
        Delta::Identical(Item::Field(a), Item::Field(b))
    } else {
        Delta::Changed(Item::Field(a), Item::Field(b))
    }
}

impl Diff for Field {
    open spec fn key(v: FieldView) -> Seq<char> {
        v.name
    }

    open spec fn item(v: FieldView) -> Item {
        Item::Field(v)
    }

    open spec fn delta(left: FieldView, right: FieldView) -> Delta {
        field_delta(left, right)
    }

    fn name(&self) -> (r: &str) {
        self.name.as_str()
    }

    fn node(&self) -> (r: Node<'_>) {
        Node::Field(self)
    }

    fn diff<'a>(&'a self, other: &'a Self) -> (r: DiffResult<'a>) {
        if self.value == other.value {
            DiffResult::Identical { left: Node::Field(self), right: Node::Field(other) }
        } else {
            DiffResult::Changed { left: Node::Field(self), right: Node::Field(other) }
        }
    }
}

} // verus!
