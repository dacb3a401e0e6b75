//! Names and types carried through the compiler's intermediate representations.

use vstd::prelude::*;
use crate::location::{Range, SourceFileIdentifier, same_file};

verus! {

/// A name written in source code, with the span where it was written.
#[derive(Debug, Clone)]
pub struct NameP {
    pub name: String,
    pub range: Range,
}

/// A fully qualified name of a global symbol: the file that defines it and its name there.
#[derive(Debug, Clone)]
pub struct QualifiedName {
    pub source_file: SourceFileIdentifier,
    pub name: String,
    pub range: Range,
}

/// A type built in to the core of the type system.
#[derive(Debug, Clone, Copy, PartialEq, Eq, Structural)]
pub enum PrimitiveType {
    Unit,
    Bool,
    Int,
}

/// A fully deduced type.
#[derive(Debug)]
pub enum Type {
    /// An explicitly named type with its type parameters, e.g. `Either[T, U]`.
    Named { name: QualifiedName, parameters: Vec<Type> },
    /// A function `a -> b`.
    Function(Box<Type>, Box<Type>),
    /// A type variable, e.g. `T` or `F[A]`.
    Variable { variable: String, parameters: Vec<Type> },
    /// A primitive type.
    Primitive(PrimitiveType),
    /// A borrowed type.
    Borrow { ty: Box<Type> },
}

/// Two qualified names refer to the same symbol, written at the same place.
pub open spec fn same_name(a: QualifiedName, b: QualifiedName) -> bool {
    &&& same_file(a.source_file, b.source_file)
    &&& a.name@ == b.name@
    &&& a.range == b.range
}

impl QualifiedName {
    /// A copy of this name.
    pub fn duplicate(&self) -> (res: QualifiedName)
        ensures
            same_name(*self, res),
    {
        QualifiedName {
            source_file: self.source_file.duplicate(),
            name: self.name.clone(),
            range: self.range,
        }
    }
}

/// Two types have the same structure and the same names throughout.
pub open spec fn same_type(a: Type, b: Type) -> bool
    decreases a,
{
    match (a, b) {
        (Type::Named { name: n1, parameters: p1 }, Type::Named { name: n2, parameters: p2 }) => {
            &&& same_name(n1, n2)
            &&& p1@.len() == p2@.len()
            &&& forall|i: int| 0 <= i < p1@.len() ==> same_type(#[trigger] p1@[i], p2@[i])
        },
        (Type::Function(l1, r1), Type::Function(l2, r2)) => same_type(*l1, *l2) && same_type(*r1, *r2),
        (
            Type::Variable { variable: v1, parameters: p1 },
            Type::Variable { variable: v2, parameters: p2 },
        ) => {
            &&& v1@ == v2@
            &&& p1@.len() == p2@.len()
            &&& forall|i: int| 0 <= i < p1@.len() ==> same_type(#[trigger] p1@[i], p2@[i])
        },
        (Type::Primitive(x), Type::Primitive(y)) => x == y,
        (Type::Borrow { ty: t1 }, Type::Borrow { ty: t2 }) => same_type(*t1, *t2),
        _ => false,
    }
}

impl Type {
    /// A copy of this type, with the same structure and names.
    pub fn duplicate(&self) -> (res: Type)
        ensures
            same_type(*self, res),
        decreases *self,
    {
        match self {
            Type::Named { name, parameters } => Type::Named {
                name: name.duplicate(),
                parameters: duplicate_types(parameters),
            },
            Type::Function(l, r) => Type::Function(Box::new(l.duplicate()), Box::new(r.duplicate())),
            Type::Variable { variable, parameters } => Type::Variable {
                variable: variable.clone(),
                parameters: duplicate_types(parameters),
            },
            Type::Primitive(p) => Type::Primitive(*p),
            Type::Borrow { ty } => Type::Borrow { ty: Box::new(ty.duplicate()) },
        }
    }
}

fn duplicate_types(v: &Vec<Type>) -> (res: Vec<Type>)
    ensures
        res@.len() == v@.len(),
        forall|i: int| 0 <= i < v@.len() ==> same_type(#[trigger] v@[i], res@[i]),
    decreases v,
{
    let mut res: Vec<Type> = Vec::new();
    let mut i: usize = 0;
    while i < v.len()
        invariant
            i <= v@.len(),
            res@.len() == i,
            forall|j: int| 0 <= j < i ==> same_type(#[trigger] v@[j], res@[j]),
        decreases v@.len() - i,
    {
        res.push(v[i].duplicate());
        i = i + 1;
    }
    res
}

} // verus!
