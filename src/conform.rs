//! What it means for a resolved type to describe an entry of a unit.
use vstd::prelude::*;
use crate::dimension::dimension;
use crate::entries::{Attr, Entry, Tag, children, locate};
use crate::model::{Function, Modifier, Parameter, Typed, TypedValue, void_name};

verus! {

/// Where a walk along qualifier entries ends.
pub enum ChainEnd {
    /// A qualifier without a referenced type: the chain qualifies `void`.
    Void,
    /// The chain runs on for more steps than the unit has entries.
    Cycle,
    /// A reference that cannot be followed.
    Broken,
    /// The first entry that is not a qualifier.
    Stop(int),
}

/// The qualifiers met walking from entry `i` along type references, in the
/// order met, and where the walk ends; `fuel` bounds the steps taken.
pub open spec fn chain(es: Seq<Entry>, i: int, fuel: nat) -> (Seq<Modifier>, ChainEnd)
    decreases fuel,
{
    if !(0 <= i < es.len()) {
        (seq![], ChainEnd::Broken)
    } else {
        match es[i].tag {
            Tag::Modifier(m) => match es[i].type_ref {
                Attr::Absent => (seq![m], ChainEnd::Void),
                Attr::Present(o) => match locate(es, o) {
                    Some(j) => if fuel == 0 {
                        (seq![m], ChainEnd::Cycle)
                    } else {
                        let rest = chain(es, j, (fuel - 1) as nat);
                        (seq![m].add(rest.0), rest.1)
                    },
                    None => (seq![m], ChainEnd::Broken),
                },
                Attr::Malformed => (seq![m], ChainEnd::Broken),
            },
            _ => (seq![], ChainEnd::Stop(i)),
        }
    }
}

/// The walk from entry `i`, bounded by the number of entries.
pub open spec fn walk(es: Seq<Entry>, i: int) -> (Seq<Modifier>, ChainEnd) {
    chain(es, i, es.len() as nat)
}

/// The entry's name attribute, where it is present.
pub open spec fn name_value(e: Entry) -> Option<String> {
    match e.name {
        Attr::Present(s) => Some(s),
        _ => None,
    }
}

/// The name a type takes from its entry: its own, or `void`.
pub open spec fn entry_type_name(e: Entry) -> Seq<char> {
    match e.name {
        Attr::Present(s) => s@,
        _ => void_name(),
    }
}

/// A subroutine type is reached through a pointer that the declaration
/// does not write: that pointer, where it is the last qualifier, is dropped.
pub open spec fn kept_modifiers(t: Tag, mods: Seq<Modifier>) -> Seq<Modifier> {
    if t == Tag::Subroutine && mods.len() > 0 && mods.last() == Modifier::Pointer {
        mods.drop_last()
    } else {
        mods
    }
}

/// `t` marks a cycle cut short under the qualifiers `mods`.
pub open spec fn is_cut(t: Typed, mods: Seq<Modifier>) -> bool {
    &&& t.value is Circular
    &&& t.name@ == void_name()
    &&& t.modifiers@ == mods
}

/// The tag of an entry whose resolution is entered, marked in progress, and
/// may therefore be cut short.
pub open spec fn is_aggregate(t: Tag) -> bool {
    match t {
        Tag::Subroutine | Tag::TypeDef | Tag::Struct | Tag::Union | Tag::Array => true,
        _ => false,
    }
}

/// `t` describes what the type reference `r` refers to, inside the
/// resolution of the entries `anc`.
pub open spec fn conforms_ref(es: Seq<Entry>, r: Attr<u64>, t: Typed, anc: Set<int>) -> bool
    decreases t, 4nat,
{
    match r {
        Attr::Absent => {
            &&& t.name@ == void_name()
            &&& t.value is Base
            &&& t.modifiers@.len() == 0
        },
        Attr::Present(o) => match locate(es, o) {
            Some(i) => conforms_typed(es, i, t, anc),
            None => false,
        },
        Attr::Malformed => false,
    }
}

/// `t` describes the type at entry `i`, inside the resolution of the
/// entries `anc`: the qualifiers met on the walk from `i`, and the entry
/// where the walk stops. A cycle cut short stands only for an aggregate
/// entry, and always for one of `anc`, whose resolution is under way.
pub open spec fn conforms_typed(es: Seq<Entry>, i: int, t: Typed, anc: Set<int>) -> bool
    decreases t, 3nat,
{
    let w = walk(es, i);
    match w.1 {
        ChainEnd::Void => {
            &&& t.name@ == void_name()
            &&& t.value is Base
            &&& t.modifiers@ == w.0
        },
        ChainEnd::Cycle => is_cut(t, w.0),
        ChainEnd::Broken => false,
        ChainEnd::Stop(s) => (is_cut(t, w.0) && is_aggregate(es[s].tag)) || {
            &&& !anc.contains(s)
            &&& t.name@ == entry_type_name(es[s])
            &&& t.modifiers@ == kept_modifiers(es[s].tag, w.0)
            &&& conforms_value(es, s, t.value, anc.insert(s))
        },
    }
}

/// `v` describes the value of the (non-qualifier) entry `s`.
pub open spec fn conforms_value(es: Seq<Entry>, s: int, v: TypedValue, anc: Set<int>) -> bool
    decreases v, 2nat,
{
    match es[s].tag {
        Tag::BaseType => v is Base,
        Tag::Enum => v is Enum,
        Tag::TypeDef => v matches TypedValue::Typedef(x) && conforms_ref(es, es[s].type_ref, *x, anc),
        Tag::Subroutine => v matches TypedValue::Function(f) && conforms_function(es, s, *f, anc),
        Tag::Struct => v matches TypedValue::Struct(ms) && conforms_parameters(
            es,
            children(es, s, Tag::Member),
            ms,
            anc,
        ),
        Tag::Union => v matches TypedValue::Union(ms) && conforms_parameters(
            es,
            children(es, s, Tag::Member),
            ms,
            anc,
        ),
        Tag::Array => v matches TypedValue::Array(x, d) && conforms_ref(es, es[s].type_ref, *x, anc)
            && dimension(es, s) == Ok::<Option<u64>, crate::model::ParseError>(d),
        _ => false,
    }
}

/// `p` describes entry `k`: its name and the type it refers to.
pub open spec fn conforms_parameter(es: Seq<Entry>, k: int, p: Parameter, anc: Set<int>) -> bool
    decreases p, 4nat,
{
    &&& p.name == name_value(es[k])
    &&& conforms_ref(es, es[k].type_ref, p.typed, anc)
}

/// `ps` describes the entries `ks`, one for one and in order.
pub open spec fn conforms_parameters(
    es: Seq<Entry>,
    ks: Seq<int>,
    ps: Vec<Parameter>,
    anc: Set<int>,
) -> bool
    decreases ps, 1nat,
{
    &&& ps@.len() == ks.len()
    &&& forall|m: int| 0 <= m < ks.len() ==> conforms_parameter(es, ks[m], #[trigger] ps@[m], anc)
}

/// `f` describes the subprogram or subroutine entry `s`: its name and return
/// type, and its formal parameters in order.
pub open spec fn conforms_function(es: Seq<Entry>, s: int, f: Function, anc: Set<int>) -> bool
    decreases f, 4nat,
{
    &&& f.name == name_value(es[s])
    &&& conforms_ref(es, es[s].type_ref, f.typed, anc)
    &&& conforms_parameters(es, children(es, s, Tag::FormalParameter), f.parameters, anc)
}

/// Entry `x` is an aggregate where a walk in the type `t` (resolved from
/// the reference `r`) stops; where `entered`, only one whose resolution was
/// entered rather than cut short.
pub open spec fn stop_in_ref(es: Seq<Entry>, r: Attr<u64>, t: Typed, x: int, entered: bool) -> bool
    decreases t, 4nat,
{
    match r {
        Attr::Present(o) => match locate(es, o) {
            Some(i) => stop_in_typed(es, i, t, x, entered),
            None => false,
        },
        _ => false,
    }
}

pub open spec fn stop_in_typed(es: Seq<Entry>, i: int, t: Typed, x: int, entered: bool) -> bool
    decreases t, 3nat,
{
    let w = walk(es, i);
    match w.1 {
        ChainEnd::Stop(s) => if t.value is Circular {
            !entered && s == x && is_aggregate(es[s].tag)
        } else {
            (s == x && is_aggregate(es[s].tag)) || stop_in_value(es, s, t.value, x, entered)
        },
        _ => false,
    }
}

pub open spec fn stop_in_value(es: Seq<Entry>, s: int, v: TypedValue, x: int, entered: bool) -> bool
    decreases v, 2nat,
{
    match v {
        TypedValue::Typedef(y) => stop_in_ref(es, es[s].type_ref, *y, x, entered),
        TypedValue::Function(f) => stop_in_function(es, s, *f, x, entered),
        TypedValue::Struct(ms) => stop_in_parameters(es, children(es, s, Tag::Member), ms, x, entered),
        TypedValue::Union(ms) => stop_in_parameters(es, children(es, s, Tag::Member), ms, x, entered),
        TypedValue::Array(y, _) => stop_in_ref(es, es[s].type_ref, *y, x, entered),
        _ => false,
    }
}

pub open spec fn stop_in_parameter(es: Seq<Entry>, k: int, p: Parameter, x: int, entered: bool) -> bool
    decreases p, 4nat,
{
    stop_in_ref(es, es[k].type_ref, p.typed, x, entered)
}

pub open spec fn stop_in_parameters(
    es: Seq<Entry>,
    ks: Seq<int>,
    ps: Vec<Parameter>,
    x: int,
    entered: bool,
) -> bool
    decreases ps, 1nat,
{
    exists|m: int| 0 <= m < ks.len() && m < ps@.len() && stop_in_parameter(es, ks[m], #[trigger] ps@[m], x, entered)
}

pub open spec fn stop_in_function(es: Seq<Entry>, s: int, f: Function, x: int, entered: bool) -> bool
    decreases f, 4nat,
{
    ||| stop_in_ref(es, es[s].type_ref, f.typed, x, entered)
    ||| stop_in_parameters(es, children(es, s, Tag::FormalParameter), f.parameters, x, entered)
}

} // verus!
