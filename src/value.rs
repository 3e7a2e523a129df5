//! Tagged values that cross the host/guest boundary, one per component.
use vstd::prelude::*;

verus! {

/// The declared primitive type of a component.
#[derive(Clone, Copy, Debug, PartialEq, Eq, Structural)]
pub enum PrimitiveType {
    Empty,
    Bool,
    EntityId,
    I32,
    U32,
    U64,
    String,
    VecU32,
    OptionU32,
}

/// One component's value: a scalar, a string, or a typed container.
#[derive(Debug, PartialEq, Eq)]
pub enum ComponentValue {
    Empty,
    Bool(bool),
    EntityId(u64),
    I32(i32),
    U32(u32),
    U64(u64),
    String(String),
    VecU32(Vec<u32>),
    OptionU32(Option<u32>),
}

impl ComponentValue {
    pub open spec fn tag_spec(&self) -> PrimitiveType {
        match self {
            ComponentValue::Empty => PrimitiveType::Empty,
            ComponentValue::Bool(_) => PrimitiveType::Bool,
            ComponentValue::EntityId(_) => PrimitiveType::EntityId,
            ComponentValue::I32(_) => PrimitiveType::I32,
            ComponentValue::U32(_) => PrimitiveType::U32,
            ComponentValue::U64(_) => PrimitiveType::U64,
            ComponentValue::String(_) => PrimitiveType::String,
            ComponentValue::VecU32(_) => PrimitiveType::VecU32,
            ComponentValue::OptionU32(_) => PrimitiveType::OptionU32,
        }
    }

    /// The primitive type that this value carries.
    pub fn tag(&self) -> (r: PrimitiveType)
        ensures
            r == self.tag_spec(),
    {
        match self {
            ComponentValue::Empty => PrimitiveType::Empty,
            ComponentValue::Bool(_) => PrimitiveType::Bool,
            ComponentValue::EntityId(_) => PrimitiveType::EntityId,
            ComponentValue::I32(_) => PrimitiveType::I32,
            ComponentValue::U32(_) => PrimitiveType::U32,
            ComponentValue::U64(_) => PrimitiveType::U64,
            ComponentValue::String(_) => PrimitiveType::String,
            ComponentValue::VecU32(_) => PrimitiveType::VecU32,
            ComponentValue::OptionU32(_) => PrimitiveType::OptionU32,
        }
    }

    /// Whether `self` and `other` are the same value.
    pub fn same_as(&self, other: &ComponentValue) -> (r: bool)
        ensures
            r == same_value(*self, *other),
    {
        match (self, other) {
            (ComponentValue::Empty, ComponentValue::Empty) => true,
            (ComponentValue::Bool(x), ComponentValue::Bool(y)) => *x == *y,
            (ComponentValue::EntityId(x), ComponentValue::EntityId(y)) => *x == *y,
            (ComponentValue::I32(x), ComponentValue::I32(y)) => *x == *y,
            (ComponentValue::U32(x), ComponentValue::U32(y)) => *x == *y,
            (ComponentValue::U64(x), ComponentValue::U64(y)) => *x == *y,
            (ComponentValue::String(x), ComponentValue::String(y)) => *x == *y,
            (ComponentValue::VecU32(x), ComponentValue::VecU32(y)) => same_u32s(x, y),
            (ComponentValue::OptionU32(x), ComponentValue::OptionU32(y)) => match (x, y) {
                (None, None) => true,
                (Some(p), Some(q)) => *p == *q,
                _ => false,
            },
            _ => false,
        }
    }

    /// A copy of this value.
    pub fn duplicate(&self) -> (r: ComponentValue)
        ensures
            same_value(r, *self),
    {
        match self {
            ComponentValue::Empty => ComponentValue::Empty,
            ComponentValue::Bool(b) => ComponentValue::Bool(*b),
            ComponentValue::EntityId(e) => ComponentValue::EntityId(*e),
            ComponentValue::I32(x) => ComponentValue::I32(*x),
            ComponentValue::U32(x) => ComponentValue::U32(*x),
            ComponentValue::U64(x) => ComponentValue::U64(*x),
            ComponentValue::String(s) => ComponentValue::String(s.clone()),
            ComponentValue::VecU32(v) => ComponentValue::VecU32(copy_u32s(v)),
            ComponentValue::OptionU32(o) => ComponentValue::OptionU32(*o),
        }
    }
}

/// Two values are the same when they have the same tag and contents; lists
/// and strings are compared by their elements.
pub open spec fn same_value(a: ComponentValue, b: ComponentValue) -> bool {
    match (a, b) {
        (ComponentValue::VecU32(x), ComponentValue::VecU32(y)) => x@ == y@,
        (ComponentValue::String(x), ComponentValue::String(y)) => x@ == y@,
        _ => a == b,
    }
}

/// `same_value` is symmetric and transitive.
pub proof fn lemma_same_value_equivalence(a: ComponentValue, b: ComponentValue, c: ComponentValue)
    ensures
        same_value(a, a),
        same_value(a, b) ==> same_value(b, a),
        same_value(a, b) && same_value(b, c) ==> same_value(a, c),
{
}

/// Whether a value may be stored in a component of type `ty`.
pub open spec fn fits(v: ComponentValue, ty: PrimitiveType) -> bool {
    v.tag_spec() == ty
}

fn same_u32s(a: &Vec<u32>, b: &Vec<u32>) -> (r: bool)
    ensures
        r == (a@ == b@),
{
    if a.len() != b.len() {
        return false;
    }
    let mut i: usize = 0;
    while i < a.len()
        invariant
            a@.len() == b@.len(),
            i <= a@.len(),
            forall|j: int| 0 <= j < i ==> a@[j] == b@[j],
        decreases a@.len() - i,
    {
        if a[i] != b[i] {
            return false;
        }
        i = i + 1;
    }
    assert(a@ =~= b@);
    true
}

fn copy_u32s(v: &Vec<u32>) -> (r: Vec<u32>)
    ensures
        r@ == v@,
{
    let mut r: Vec<u32> = Vec::new();
    let mut i: usize = 0;
    while i < v.len()
        invariant
            i <= v@.len(),
            r@ == v@.subrange(0, i as int),
        decreases v@.len() - i,
    {
        r.push(v[i]);
        i = i + 1;
    }
    assert(r@ =~= v@);
    r
}

} // verus!
