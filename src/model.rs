//! The semantic type model that the resolver produces.
use vstd::prelude::*;

verus! {

/// A qualifier met on the way from a use site to its base type.
#[derive(PartialEq, Eq, Structural, Clone, Copy, Debug)]
pub enum Modifier {
    Pointer,
    Reference,
    Const,
    Volatile,
    Restrict,
}

/// What a resolved type is, beneath its qualifiers.
#[derive(Debug)]
pub enum TypedValue {
    Base,
    Enum,
    Typedef(Box<Typed>),
    Function(Box<Function>),
    Struct(Vec<Parameter>),
    Union(Vec<Parameter>),
    /// The element type and the number of elements; `None` where a
    /// subrange gives neither a count nor an upper bound.
    Array(Box<Typed>, Option<u64>),
    /// The type refers back to an entry that is still being resolved.
    Circular,
}

/// A resolved type: its name, its qualifiers in the order met, and its value.
#[derive(Debug)]
pub struct Typed {
    pub name: String,
    pub value: TypedValue,
    pub modifiers: Vec<Modifier>,
}

/// A named, typed child: a formal parameter, a struct or union member, or
/// the declarator of a function (its name and return type).
#[derive(Debug)]
pub struct Parameter {
    pub name: Option<String>,
    pub typed: Typed,
}

/// A struct or union member.
pub type Member = Parameter;

/// A function signature: its name, its return type and its parameters.
#[derive(Debug)]
pub struct Function {
    pub name: Option<String>,
    pub typed: Typed,
    pub parameters: Vec<Parameter>,
}

/// Why a unit could not be turned into signatures. Any of these aborts the
/// whole parse.
#[derive(PartialEq, Eq, Structural, Clone, Copy, Debug)]
pub enum ParseError {
    /// The DWARF reader could not decode the sections.
    Decode,
    /// The entries of a unit did not come in increasing offset order.
    EntryOrder,
    /// A reference names an offset at which the unit has no entry.
    BadReference(u64),
    /// The entry at this offset holds an attribute in a form that cannot
    /// be read as expected.
    MalformedAttribute(u64),
    /// A type reference ends at the entry at this offset, whose tag is not
    /// a type.
    UnsupportedTag(u64),
    /// The subrange at this offset has an upper bound below its lower bound.
    BadBounds(u64),
    /// The element count of the array at this offset exceeds `u64::MAX`.
    DimensionOverflow(u64),
    /// The selected subprogram at this offset has no name.
    MissingName(u64),
}

pub open spec fn void_name() -> Seq<char> {
    seq!['v', 'o', 'i', 'd']
}

/// The type of an absent type reference.
pub open spec fn is_void(t: Typed) -> bool {
    &&& t.name@ == void_name()
    &&& t.value is Base
    &&& t.modifiers@.len() == 0
}

pub fn void_string() -> (s: String)
    ensures
        s@ == void_name(),
{
    let s = String::from_str("void");
    proof {
        reveal_strlit("void");
    }
    s
}

/// `void`, with no qualifiers.
pub fn void_typed() -> (t: Typed)
    ensures
        is_void(t),
{
    Typed { name: void_string(), value: TypedValue::Base, modifiers: Vec::new() }
}

/// Two types are structurally identical: the same names, qualifiers and
/// values, all the way down.
pub open spec fn same_typed(a: Typed, b: Typed) -> bool
    decreases a, 3nat,
{
    &&& a.name@ == b.name@
    &&& a.modifiers@ == b.modifiers@
    &&& same_value(a.value, b.value)
}

pub open spec fn same_value(a: TypedValue, b: TypedValue) -> bool
    decreases a, 2nat,
{
    match a {
        TypedValue::Base => b is Base,
        TypedValue::Enum => b is Enum,
        TypedValue::Typedef(x) => b matches TypedValue::Typedef(y) && same_typed(*x, *y),
        TypedValue::Function(f) => b matches TypedValue::Function(g) && same_function(*f, *g),
        TypedValue::Struct(xs) => b matches TypedValue::Struct(ys) && same_parameters(xs, ys),
        TypedValue::Union(xs) => b matches TypedValue::Union(ys) && same_parameters(xs, ys),
        TypedValue::Array(x, d) => b matches TypedValue::Array(y, e) && d == e && same_typed(
            *x,
            *y,
        ),
        TypedValue::Circular => b is Circular,
    }
}

pub open spec fn same_parameter(a: Parameter, b: Parameter) -> bool
    decreases a, 4nat,
{
    a.name == b.name && same_typed(a.typed, b.typed)
}

pub open spec fn same_parameters(xs: Vec<Parameter>, ys: Vec<Parameter>) -> bool
    decreases xs, 1nat,
{
    &&& xs@.len() == ys@.len()
    &&& forall|i: int| 0 <= i < xs@.len() ==> same_parameter(#[trigger] xs@[i], ys@[i])
}

pub open spec fn same_function(a: Function, b: Function) -> bool
    decreases a, 4nat,
{
    &&& a.name == b.name
    &&& same_typed(a.typed, b.typed)
    &&& same_parameters(a.parameters, b.parameters)
}

fn clone_name(n: &Option<String>) -> (r: Option<String>)
    ensures
        r == *n,
{
    match n {
        Some(s) => Some(s.clone()),
        None => None,
    }
}

fn clone_modifiers(ms: &Vec<Modifier>) -> (r: Vec<Modifier>)
    ensures
        r@ == ms@,
{
    let mut r: Vec<Modifier> = Vec::new();
    let mut i: usize = 0;
    while i < ms.len()
        invariant
            i <= ms@.len(),
            r@ == ms@.subrange(0, i as int),
        decreases ms@.len() - i,
    {
        r.push(ms[i]);
        i = i + 1;
    }
    assert(r@ == ms@);
    r
}

fn clone_typed(t: &Typed) -> (r: Typed)
    ensures
        same_typed(r, *t),
    decreases t, 3nat,
{
    let value = clone_value(&t.value);
    let modifiers = clone_modifiers(&t.modifiers);
    Typed { name: t.name.clone(), value, modifiers }
}

fn clone_value(v: &TypedValue) -> (r: TypedValue)
    ensures
        same_value(r, *v),
    decreases v, 2nat,
{
    match v {
        TypedValue::Base => TypedValue::Base,
        TypedValue::Enum => TypedValue::Enum,
        TypedValue::Typedef(t) => TypedValue::Typedef(Box::new(clone_typed(t))),
        TypedValue::Function(f) => TypedValue::Function(Box::new(clone_function(f))),
        TypedValue::Struct(ms) => TypedValue::Struct(clone_parameters(ms)),
        TypedValue::Union(ms) => TypedValue::Union(clone_parameters(ms)),
        TypedValue::Array(t, d) => TypedValue::Array(Box::new(clone_typed(t)), *d),
        TypedValue::Circular => TypedValue::Circular,
    }
}

fn clone_parameter(p: &Parameter) -> (r: Parameter)
    ensures
        same_parameter(r, *p),
    decreases p, 4nat,
{
    Parameter { name: clone_name(&p.name), typed: clone_typed(&p.typed) }
}

fn clone_parameters(ps: &Vec<Parameter>) -> (r: Vec<Parameter>)
    ensures
        same_parameters(r, *ps),
    decreases ps, 1nat,
{
    let mut r: Vec<Parameter> = Vec::new();
    let mut i: usize = 0;
    while i < ps.len()
        invariant
            i <= ps@.len(),
            r@.len() == i,
            forall|j: int| 0 <= j < i ==> same_parameter(#[trigger] r@[j], ps@[j]),
        decreases ps@.len() - i,
    {
        proof {
            vstd::std_specs::vec::axiom_vec_index_decreases(*ps, i as int);
        }
        r.push(clone_parameter(&ps[i]));
        i = i + 1;
    }
    r
}

fn clone_function(f: &Function) -> (r: Function)
    ensures
        same_function(r, *f),
    decreases f, 4nat,
{
    Function {
        name: clone_name(&f.name),
        typed: clone_typed(&f.typed),
        parameters: clone_parameters(&f.parameters),
    }
}

impl Clone for Typed {
    fn clone(&self) -> (r: Self)
        ensures
            same_typed(r, *self),
    {
        clone_typed(self)
    }
}

impl Clone for TypedValue {
    fn clone(&self) -> (r: Self)
        ensures
            same_value(r, *self),
    {
        clone_value(self)
    }
}

impl Clone for Parameter {
    fn clone(&self) -> (r: Self)
        ensures
            same_parameter(r, *self),
    {
        clone_parameter(self)
    }
}

impl Clone for Function {
    fn clone(&self) -> (r: Self)
        ensures
            same_function(r, *self),
    {
        clone_function(self)
    }
}

} // verus!
