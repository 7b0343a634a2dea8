//! The data that the allocator reads: values, slot types, the function's
//! metadata and the operator stream.

use vstd::prelude::*;

verus! {

/// Number of a local slot.
pub type LocalId = u32;

/// An SSA value, known by its index into the function's table of value types.
#[derive(Clone, Copy, Debug, PartialEq, Eq, Hash)]
pub struct Value(pub u32);

impl Value {
    pub fn new(index: u32) -> (v: Value)
        ensures
            v == Value(index),
    {
        Value(index)
    }

    pub open spec fn spec_index(self) -> usize {
        self.0 as usize
    }

    /// Position of this value in [`FunctionBody::types`].
    #[verifier::when_used_as_spec(spec_index)]
    pub fn index(self) -> (r: usize)
        ensures
            r == self.0,
            r == self.spec_index(),
    {
        self.0 as usize
    }
}

impl Default for Value {
    fn default() -> (v: Value)
        ensures
            v == Value(0),
    {
        Value(0)
    }
}

/// The primitive type of a slot.  A slot never changes its type.
#[derive(Clone, Copy, Debug, PartialEq, Eq, Hash)]
pub enum Type {
    I32,
    I64,
    F32,
    F64,
    V128,
    FuncRef,
    ExternRef,
    ExnRef,
    Func,
    EmptyBlockType,
}

impl Type {
    /// A small number that tells the types apart.
    pub open spec fn tag(self) -> u8 {
        match self {
            Type::I32 => 0,
            Type::I64 => 1,
            Type::F32 => 2,
            Type::F64 => 3,
            Type::V128 => 4,
            Type::FuncRef => 5,
            Type::ExternRef => 6,
            Type::ExnRef => 7,
            Type::Func => 8,
            Type::EmptyBlockType => 9,
        }
    }

    pub fn code(self) -> (r: u8)
        ensures
            r == self.tag(),
    {
        match self {
            Type::I32 => 0,
            Type::I64 => 1,
            Type::F32 => 2,
            Type::F64 => 3,
            Type::V128 => 4,
            Type::FuncRef => 5,
            Type::ExternRef => 6,
            Type::ExnRef => 7,
            Type::Func => 8,
            Type::EmptyBlockType => 9,
        }
    }

    /// Two types with one tag are one type.
    pub proof fn lemma_tag_injective(a: Type, b: Type)
        ensures
            a.tag() == b.tag() <==> a == b,
    {
    }
}

/// What the allocator needs to know of a function: the slots it already
/// declares and, for every value, the type of each of its components.
#[derive(Debug)]
pub struct FunctionBody {
    /// Types of the slots that exist before allocation.
    pub locals: Vec<Type>,
    /// `types[v][i]` is the type of component `i` of the value with index `v`.
    pub types: Vec<Vec<Type>>,
}

impl FunctionBody {
    /// Whether the function records a type for component `i` of `v`.
    pub open spec fn has_type(&self, v: Value, i: usize) -> bool {
        v.0 < self.types@.len() && i < self.types@[v.0 as int]@.len()
    }

    /// The recorded type of component `i` of `v`.
    pub open spec fn type_of(&self, v: Value, i: usize) -> Type
        recommends
            self.has_type(v, i),
    {
        self.types@[v.0 as int]@[i as int]
    }

    pub fn lookup_type(&self, v: Value, i: usize) -> (r: Option<Type>)
        ensures
            r == (if self.has_type(v, i) {
                Some(self.type_of(v, i))
            } else {
                None
            }),
    {
        let vi = v.index();
        if vi < self.types.len() {
            if i < self.types[vi].len() {
                return Some(self.types[vi][i]);
            }
        }
        None
    }
}

/// One element of the operator stream.  Only its shape and the pairs it reads
/// and writes matter here.
#[derive(Debug)]
pub enum SerializedOperator {
    /// Write component `.1` of value `.0` to its slot.
    Write(Value, usize),
    /// Read component `.1` of value `.0` from its slot.
    Read(Value, usize),
    /// Any other operator, reduced to the pairs it reads and the pairs it
    /// writes.  All reads happen before all writes.
    Other { reads: Vec<(Value, usize)>, writes: Vec<(Value, usize)> },
}

impl SerializedOperator {
    /// The pairs this operator reads, in order.
    pub open spec fn reads(&self) -> Seq<(Value, usize)> {
        match *self {
            SerializedOperator::Write(_, _) => Seq::empty(),
            SerializedOperator::Read(v, i) => seq![(v, i)],
            SerializedOperator::Other { reads, writes } => reads@,
        }
    }

    /// The pairs this operator writes, in order.
    pub open spec fn writes(&self) -> Seq<(Value, usize)> {
        match *self {
            SerializedOperator::Write(v, i) => seq![(v, i)],
            SerializedOperator::Read(_, _) => Seq::empty(),
            SerializedOperator::Other { reads, writes } => writes@,
        }
    }
}

/// The operator stream of one function body.
#[derive(Debug)]
pub struct SerializedBody {
    pub operators: Vec<SerializedOperator>,
}

} // verus!
