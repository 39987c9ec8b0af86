//! The declarator formatter: C-like text for types, parameters and
//! function signatures.
use vstd::prelude::*;
use crate::model::{Function, Modifier, Parameter, Typed, TypedValue};

verus! {

pub open spec fn modifier_text(m: Modifier) -> Seq<char> {
    match m {
        Modifier::Pointer => seq!['*'],
        Modifier::Reference => seq!['&'],
        Modifier::Const => seq![' ', 'c', 'o', 'n', 's', 't'],
        Modifier::Volatile => seq![' ', 'v', 'o', 'l', 'a', 't', 'i', 'l', 'e'],
        Modifier::Restrict => seq![' ', 'r', 'e', 's', 't', 'r', 'i', 'c', 't'],
    }
}

/// The qualifiers' text, in the order they were met.
pub open spec fn modifiers_text(ms: Seq<Modifier>) -> Seq<char>
    decreases ms.len(),
{
    if ms.len() == 0 {
        seq![]
    } else {
        modifiers_text(ms.drop_last()) + modifier_text(ms.last())
    }
}

pub open spec fn circular_text() -> Seq<char> {
    seq!['<', 'c', 'i', 'r', 'c', 'u', 'l', 'a', 'r', '>']
}

/// The specifier of a type before its qualifiers: `struct`, `union` and
/// `array` with the name; the fixed `<circular>`; else the name alone.
pub open spec fn base_text(t: Typed) -> Seq<char> {
    match t.value {
        TypedValue::Circular => circular_text(),
        TypedValue::Struct(_) => seq!['s', 't', 'r', 'u', 'c', 't', ' '] + t.name@,
        TypedValue::Union(_) => seq!['u', 'n', 'i', 'o', 'n', ' '] + t.name@,
        TypedValue::Array(_, _) => seq!['a', 'r', 'r', 'a', 'y', ' '] + t.name@,
        _ => t.name@,
    }
}

/// A type's text: its specifier followed by its qualifiers, in the order
/// they were met walking from the use site to the base type. Where pointers
/// and other qualifiers mix, this is not C's declarator order: a constant
/// pointer to `char` (met as `const`, then pointer) reads `char const*`.
pub open spec fn typed_text(t: Typed) -> Seq<char> {
    base_text(t) + modifiers_text(t.modifiers@)
}

pub open spec fn name_view(n: Option<String>) -> Option<Seq<char>> {
    match n {
        Some(s) => Some(s@),
        None => None,
    }
}

/// The declarator of a pointer to a function: `(*name)`, or `(*)`.
pub open spec fn pointer_to(name: Option<Seq<char>>) -> Seq<char> {
    match name {
        Some(n) => seq!['(', '*'] + n + seq![')'],
        None => seq!['(', '*', ')'],
    }
}

/// A declaration of `name` with type `t`: a function type becomes a
/// function-pointer declarator; else the type's text and the name, if any.
pub open spec fn declarator_text(name: Option<Seq<char>>, t: Typed) -> Seq<char>
    decreases t, 0nat,
{
    match t.value {
        TypedValue::Function(f) => function_text(*f, Some(pointer_to(name))),
        _ => match name {
            Some(n) => typed_text(t) + seq![' '] + n,
            None => typed_text(t),
        },
    }
}

/// The first `n` parameters, separated by `, `.
pub open spec fn parameters_text(ps: Vec<Parameter>, n: nat) -> Seq<char>
    decreases ps, n,
{
    if n == 0 || n > ps@.len() {
        seq![]
    } else if n == 1 {
        declarator_text(name_view(ps@[0].name), ps@[0].typed)
    } else {
        parameters_text(ps, (n - 1) as nat) + seq![',', ' '] + declarator_text(
            name_view(ps@[n - 1].name),
            ps@[n - 1].typed,
        )
    }
}

/// A signature: the declarator of `name` with the return type, then the
/// parameters in parentheses.
pub open spec fn function_text(f: Function, name: Option<Seq<char>>) -> Seq<char>
    decreases f, 0nat,
{
    declarator_text(name, f.typed) + seq!['('] + parameters_text(f.parameters, f.parameters@.len())
        + seq![')']
}

fn text(s: &mut String, t: &str)
    ensures
        final(s)@ == old(s)@ + t@,
{
    s.append(t);
}

fn modifier_str(m: Modifier) -> (r: &'static str)
    ensures
        r@ == modifier_text(m),
{
    match m {
        Modifier::Pointer => {
            proof {
                reveal_strlit("*");
            }
            "*"
        },
        Modifier::Reference => {
            proof {
                reveal_strlit("&");
            }
            "&"
        },
        Modifier::Const => {
            proof {
                reveal_strlit(" const");
            }
            " const"
        },
        Modifier::Volatile => {
            proof {
                reveal_strlit(" volatile");
            }
            " volatile"
        },
        Modifier::Restrict => {
            proof {
                reveal_strlit(" restrict");
            }
            " restrict"
        },
    }
}

fn render_typed(t: &Typed) -> (r: String)
    ensures
        r@ == typed_text(*t),
{
    let mut s = String::new();
    match &t.value {
        TypedValue::Circular => {
            proof {
                reveal_strlit("<circular>");
            }
            text(&mut s, "<circular>");
        },
        TypedValue::Struct(_) => {
            proof {
                reveal_strlit("struct ");
            }
            text(&mut s, "struct ");
            text(&mut s, t.name.as_str());
        },
        TypedValue::Union(_) => {
            proof {
                reveal_strlit("union ");
            }
            text(&mut s, "union ");
            text(&mut s, t.name.as_str());
        },
        TypedValue::Array(_, _) => {
            proof {
                reveal_strlit("array ");
            }
            text(&mut s, "array ");
            text(&mut s, t.name.as_str());
        },
        _ => {
            text(&mut s, t.name.as_str());
        },
    }
    assert(s@ =~= base_text(*t));
    let mut i: usize = 0;
    while i < t.modifiers.len()
        invariant
            i <= t.modifiers@.len(),
            s@ == base_text(*t) + modifiers_text(t.modifiers@.take(i as int)),
        decreases t.modifiers@.len() - i,
    {
        let ghost before = s@;
        text(&mut s, modifier_str(t.modifiers[i]));
        proof {
            let ms = t.modifiers@.take(i + 1);
            assert(ms.drop_last() =~= t.modifiers@.take(i as int));
            assert(s@ =~= base_text(*t) + modifiers_text(ms));
        }
        i = i + 1;
    }
    assert(t.modifiers@.take(i as int) =~= t.modifiers@);
    s
}

fn clone_text(n: &Option<String>) -> (r: Option<String>)
    ensures
        name_view(r) == name_view(*n),
{
    match n {
        Some(s) => Some(s.clone()),
        None => None,
    }
}

fn render_declarator(name: Option<String>, t: &Typed) -> (r: String)
    ensures
        r@ == declarator_text(name_view(name), *t),
    decreases t, 0nat,
{
    match &t.value {
        TypedValue::Function(f) => {
            let mut d = String::new();
            match &name {
                Some(n) => {
                    proof {
                        reveal_strlit("(*");
                        reveal_strlit(")");
                    }
                    text(&mut d, "(*");
                    text(&mut d, n.as_str());
                    text(&mut d, ")");
                },
                None => {
                    proof {
                        reveal_strlit("(*)");
                    }
                    text(&mut d, "(*)");
                },
            }
            assert(d@ =~= pointer_to(name_view(name)));
            render_function(f, Some(d))
        },
        _ => {
            let mut s = render_typed(t);
            match &name {
                Some(n) => {
                    proof {
                        reveal_strlit(" ");
                    }
                    text(&mut s, " ");
                    text(&mut s, n.as_str());
                },
                None => {},
            }
            assert(s@ =~= declarator_text(name_view(name), *t));
            s
        },
    }
}

fn render_function(f: &Function, name: Option<String>) -> (r: String)
    ensures
        r@ == function_text(*f, name_view(name)),
    decreases f, 0nat,
{
    let mut s = render_declarator(name, &f.typed);
    proof {
        reveal_strlit("(");
        reveal_strlit(", ");
        reveal_strlit(")");
    }
    text(&mut s, "(");
    let ghost head = s@;
    let ps = &f.parameters;
    let mut i: usize = 0;
    while i < ps.len()
        invariant
            i <= ps@.len(),
            ps == &f.parameters,
            s@ == head + parameters_text(*ps, i as nat),
        decreases ps@.len() - i,
    {
        proof {
            vstd::std_specs::vec::axiom_vec_index_decreases(*ps, i as int);
        }
        let ghost prev = parameters_text(*ps, i as nat);
        if i > 0 {
            let sep = ", ";
            proof {
                reveal_strlit(", ");
            }
            assert(sep@ == seq![',', ' ']);
            text(&mut s, sep);
            assert(s@ == head + prev + seq![',', ' ']);
        } else {
            assert(s@ =~= head);
        }
        let ghost mid = s@;
        let p = render_declarator(clone_text(&ps[i].name), &ps[i].typed);
        text(&mut s, p.as_str());
        proof {
            let d = declarator_text(name_view(ps@[i as int].name), ps@[i as int].typed);
            assert(p@ == d);
            if i == 0 {
                assert(parameters_text(*ps, 1) == d);
                assert(prev =~= Seq::<char>::empty());
            } else {
                assert(parameters_text(*ps, (i + 1) as nat) == prev + seq![',', ' '] + d);
            }
        }
        assert(s@ == mid + p@);
        assert(s@ =~= head + parameters_text(*ps, (i + 1) as nat));
        i = i + 1;
    }
    text(&mut s, ")");
    assert(s@ =~= function_text(*f, name_view(name)));
    s
}

impl Typed {
    /// The type's text: its specifier followed by its qualifiers.
    pub fn to_string(&self) -> (r: String)
        ensures
            r@ == typed_text(*self),
    {
        render_typed(self)
    }
}

impl Parameter {
    /// The parameter as a declaration; a function type gives a
    /// function-pointer declarator.
    pub fn to_string(&self) -> (r: String)
        ensures
            r@ == declarator_text(name_view(self.name), self.typed),
    {
        render_declarator(clone_text(&self.name), &self.typed)
    }
}

impl Function {
    /// The signature as a C declaration.
    pub fn to_string(&self) -> (r: String)
        ensures
            r@ == function_text(*self, name_view(self.name)),
    {
        render_function(self, clone_text(&self.name))
    }
}

} // verus!
