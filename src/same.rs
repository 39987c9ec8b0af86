//! Structural identity, and that it carries conformance over.
use vstd::prelude::*;
use crate::conform::{
    ChainEnd, conforms_function, conforms_parameter, conforms_parameters, conforms_ref,
    conforms_typed, conforms_value, is_aggregate, is_cut, stop_in_function, stop_in_parameter,
    stop_in_parameters, stop_in_ref, stop_in_typed, stop_in_value, walk,
};
use crate::entries::{Attr, Entry, Tag, children, locate};
use crate::model::{
    Function, Parameter, Typed, TypedValue, same_function, same_parameter, same_parameters,
    same_typed, same_value,
};

verus! {

pub proof fn lemma_conforms_ref_same(es: Seq<Entry>, r: Attr<u64>, a: Typed, b: Typed, anc: Set<int>)
    requires
        same_typed(a, b),
        conforms_ref(es, r, b, anc),
    ensures
        conforms_ref(es, r, a, anc),
    decreases a, 4nat,
{
    if let Attr::Present(o) = r {
        if let Some(i) = locate(es, o) {
            lemma_conforms_same(es, i, a, b, anc);
        }
    }
}

/// A type structurally identical to one that describes entry `i` describes
/// it too.
pub proof fn lemma_conforms_same(es: Seq<Entry>, i: int, a: Typed, b: Typed, anc: Set<int>)
    requires
        same_typed(a, b),
        conforms_typed(es, i, b, anc),
    ensures
        conforms_typed(es, i, a, anc),
    decreases a, 3nat,
{
    let w = walk(es, i);
    if let ChainEnd::Stop(s) = w.1 {
        if !(is_cut(b, w.0) && is_aggregate(es[s].tag)) {
            lemma_conforms_value_same(es, s, a.value, b.value, anc.insert(s));
        }
    }
}

proof fn lemma_conforms_value_same(es: Seq<Entry>, s: int, a: TypedValue, b: TypedValue, anc: Set<int>)
    requires
        same_value(a, b),
        conforms_value(es, s, b, anc),
    ensures
        conforms_value(es, s, a, anc),
    decreases a, 2nat,
{
    match (a, b) {
        (TypedValue::Typedef(x), TypedValue::Typedef(y)) => {
            lemma_conforms_ref_same(es, es[s].type_ref, *x, *y, anc);
        },
        (TypedValue::Function(f), TypedValue::Function(g)) => {
            lemma_conforms_function_same(es, s, *f, *g, anc);
        },
        (TypedValue::Struct(xs), TypedValue::Struct(ys)) => {
            lemma_conforms_parameters_same(es, children(es, s, Tag::Member), xs, ys, anc);
        },
        (TypedValue::Union(xs), TypedValue::Union(ys)) => {
            lemma_conforms_parameters_same(es, children(es, s, Tag::Member), xs, ys, anc);
        },
        (TypedValue::Array(x, _), TypedValue::Array(y, _)) => {
            lemma_conforms_ref_same(es, es[s].type_ref, *x, *y, anc);
        },
        _ => {},
    }
}

proof fn lemma_conforms_parameters_same(
    es: Seq<Entry>,
    ks: Seq<int>,
    xs: Vec<Parameter>,
    ys: Vec<Parameter>,
    anc: Set<int>,
)
    requires
        same_parameters(xs, ys),
        conforms_parameters(es, ks, ys, anc),
    ensures
        conforms_parameters(es, ks, xs, anc),
    decreases xs, 1nat,
{
    assert forall|m: int| 0 <= m < ks.len() implies conforms_parameter(
        es,
        ks[m],
        #[trigger] xs@[m],
        anc,
    ) by {
        vstd::std_specs::vec::axiom_vec_index_decreases(xs, m);
        lemma_conforms_ref_same(es, es[ks[m]].type_ref, xs@[m].typed, ys@[m].typed, anc);
    }
}

proof fn lemma_conforms_function_same(es: Seq<Entry>, s: int, f: Function, g: Function, anc: Set<int>)
    requires
        same_function(f, g),
        conforms_function(es, s, g, anc),
    ensures
        conforms_function(es, s, f, anc),
    decreases f, 4nat,
{
    lemma_conforms_ref_same(es, es[s].type_ref, f.typed, g.typed, anc);
    lemma_conforms_parameters_same(
        es,
        children(es, s, Tag::FormalParameter),
        f.parameters,
        g.parameters,
        anc,
    );
}

pub proof fn lemma_stop_ref_same(es: Seq<Entry>, r: Attr<u64>, a: Typed, b: Typed, x: int, e: bool)
    requires
        same_typed(a, b),
    ensures
        stop_in_ref(es, r, a, x, e) == stop_in_ref(es, r, b, x, e),
    decreases a, 4nat,
{
    if let Attr::Present(o) = r {
        if let Some(i) = locate(es, o) {
            lemma_stop_same(es, i, a, b, x, e);
        }
    }
}

/// Structurally identical types stop at the same entries.
pub proof fn lemma_stop_same(es: Seq<Entry>, i: int, a: Typed, b: Typed, x: int, e: bool)
    requires
        same_typed(a, b),
    ensures
        stop_in_typed(es, i, a, x, e) == stop_in_typed(es, i, b, x, e),
    decreases a, 3nat,
{
    if let ChainEnd::Stop(s) = walk(es, i).1 {
        lemma_stop_value_same(es, s, a.value, b.value, x, e);
    }
}

proof fn lemma_stop_value_same(es: Seq<Entry>, s: int, a: TypedValue, b: TypedValue, x: int, e: bool)
    requires
        same_value(a, b),
    ensures
        stop_in_value(es, s, a, x, e) == stop_in_value(es, s, b, x, e),
    decreases a, 2nat,
{
    match (a, b) {
        (TypedValue::Typedef(p), TypedValue::Typedef(q)) => {
            lemma_stop_ref_same(es, es[s].type_ref, *p, *q, x, e);
        },
        (TypedValue::Function(f), TypedValue::Function(g)) => {
            lemma_stop_function_same(es, s, *f, *g, x, e);
        },
        (TypedValue::Struct(xs), TypedValue::Struct(ys)) => {
            lemma_stop_parameters_same(es, children(es, s, Tag::Member), xs, ys, x, e);
        },
        (TypedValue::Union(xs), TypedValue::Union(ys)) => {
            lemma_stop_parameters_same(es, children(es, s, Tag::Member), xs, ys, x, e);
        },
        (TypedValue::Array(p, _), TypedValue::Array(q, _)) => {
            lemma_stop_ref_same(es, es[s].type_ref, *p, *q, x, e);
        },
        _ => {},
    }
}

proof fn lemma_stop_parameters_same(
    es: Seq<Entry>,
    ks: Seq<int>,
    xs: Vec<Parameter>,
    ys: Vec<Parameter>,
    x: int,
    e: bool,
)
    requires
        same_parameters(xs, ys),
    ensures
        stop_in_parameters(es, ks, xs, x, e) == stop_in_parameters(es, ks, ys, x, e),
    decreases xs, 1nat,
{
    assert forall|m: int| 0 <= m < xs@.len() implies stop_in_parameter(es, ks[m], #[trigger] xs@[m], x, e)
        == stop_in_parameter(es, ks[m], ys@[m], x, e) by {
        vstd::std_specs::vec::axiom_vec_index_decreases(xs, m);
        lemma_stop_ref_same(es, es[ks[m]].type_ref, xs@[m].typed, ys@[m].typed, x, e);
    }
    if stop_in_parameters(es, ks, ys, x, e) {
        let m = choose|m: int| 0 <= m < ks.len() && m < ys@.len() && stop_in_parameter(es, ks[m], #[trigger] ys@[m], x, e);
        assert(stop_in_parameter(es, ks[m], xs@[m], x, e));
    }
    if stop_in_parameters(es, ks, xs, x, e) {
        let m = choose|m: int| 0 <= m < ks.len() && m < xs@.len() && stop_in_parameter(es, ks[m], #[trigger] xs@[m], x, e);
        assert(stop_in_parameter(es, ks[m], ys@[m], x, e));
    }
}

proof fn lemma_stop_function_same(es: Seq<Entry>, s: int, f: Function, g: Function, x: int, e: bool)
    requires
        same_function(f, g),
    ensures
        stop_in_function(es, s, f, x, e) == stop_in_function(es, s, g, x, e),
    decreases f, 4nat,
{
    lemma_stop_ref_same(es, es[s].type_ref, f.typed, g.typed, x, e);
    lemma_stop_parameters_same(es, children(es, s, Tag::FormalParameter), f.parameters, g.parameters, x, e);
}

/// Entries added to `anc` where `t` never stops change nothing, and
/// entries taken out of it only relax what `t` must meet.
pub open spec fn retarget_ok(es: Seq<Entry>, a: Set<int>, b: Set<int>, stops: spec_fn(int) -> bool) -> bool {
    forall|x: int| #[trigger] b.contains(x) && !a.contains(x) ==> is_aggregate(es[x].tag) && !stops(x)
}

pub proof fn lemma_retarget_ref(es: Seq<Entry>, r: Attr<u64>, t: Typed, a: Set<int>, b: Set<int>)
    requires
        conforms_ref(es, r, t, a),
        retarget_ok(es, a, b, |x: int| stop_in_ref(es, r, t, x, false)),
    ensures
        conforms_ref(es, r, t, b),
    decreases t, 4nat,
{
    if let Attr::Present(o) = r {
        if let Some(i) = locate(es, o) {
            lemma_retarget(es, i, t, a, b);
        }
    }
}

/// A type that describes entry `i` inside the resolution of `a` does so
/// inside that of `b`, where `b` adds only aggregates at which it never stops.
pub proof fn lemma_retarget(es: Seq<Entry>, i: int, t: Typed, a: Set<int>, b: Set<int>)
    requires
        conforms_typed(es, i, t, a),
        retarget_ok(es, a, b, |x: int| stop_in_typed(es, i, t, x, false)),
    ensures
        conforms_typed(es, i, t, b),
    decreases t, 3nat,
{
    let w = walk(es, i);
    if let ChainEnd::Stop(s) = w.1 {
        if !(is_cut(t, w.0) && is_aggregate(es[s].tag)) {
            assert(!(t.value is Circular)) by {
                assert(conforms_value(es, s, t.value, a.insert(s)));
            }
            if b.contains(s) {
                assert(!a.contains(s));
                assert(is_aggregate(es[s].tag) && !stop_in_typed(es, i, t, s, false));
            }
            assert(retarget_ok(es, a.insert(s), b.insert(s), |x: int| stop_in_value(es, s, t.value, x, false))) by {
                assert forall|x: int| #[trigger] b.insert(s).contains(x) && !a.insert(s).contains(x) implies
                    is_aggregate(es[x].tag) && !stop_in_value(es, s, t.value, x, false) by {
                    assert(b.contains(x) && !a.contains(x));
                }
            }
            lemma_retarget_value(es, s, t.value, a.insert(s), b.insert(s));
        }
    }
}

proof fn lemma_retarget_value(es: Seq<Entry>, s: int, v: TypedValue, a: Set<int>, b: Set<int>)
    requires
        conforms_value(es, s, v, a),
        retarget_ok(es, a, b, |x: int| stop_in_value(es, s, v, x, false)),
    ensures
        conforms_value(es, s, v, b),
    decreases v, 2nat,
{
    match v {
        TypedValue::Typedef(y) => {
            assert(retarget_ok(es, a, b, |x: int| stop_in_ref(es, es[s].type_ref, *y, x, false)));
            lemma_retarget_ref(es, es[s].type_ref, *y, a, b);
        },
        TypedValue::Function(f) => {
            assert(retarget_ok(es, a, b, |x: int| stop_in_function(es, s, *f, x, false)));
            lemma_retarget_function(es, s, *f, a, b);
        },
        TypedValue::Struct(ms) => {
            let ks = children(es, s, Tag::Member);
            assert(retarget_ok(es, a, b, |x: int| stop_in_parameters(es, ks, ms, x, false)));
            lemma_retarget_parameters(es, ks, ms, a, b);
        },
        TypedValue::Union(ms) => {
            let ks = children(es, s, Tag::Member);
            assert(retarget_ok(es, a, b, |x: int| stop_in_parameters(es, ks, ms, x, false)));
            lemma_retarget_parameters(es, ks, ms, a, b);
        },
        TypedValue::Array(y, _) => {
            assert(retarget_ok(es, a, b, |x: int| stop_in_ref(es, es[s].type_ref, *y, x, false)));
            lemma_retarget_ref(es, es[s].type_ref, *y, a, b);
        },
        _ => {},
    }
}

pub proof fn lemma_retarget_parameters(es: Seq<Entry>, ks: Seq<int>, ps: Vec<Parameter>, a: Set<int>, b: Set<int>)
    requires
        conforms_parameters(es, ks, ps, a),
        retarget_ok(es, a, b, |x: int| stop_in_parameters(es, ks, ps, x, false)),
    ensures
        conforms_parameters(es, ks, ps, b),
    decreases ps, 1nat,
{
    assert forall|m: int| 0 <= m < ks.len() implies conforms_parameter(es, ks[m], #[trigger] ps@[m], b) by {
        vstd::std_specs::vec::axiom_vec_index_decreases(ps, m);
        assert forall|x: int| #[trigger] b.contains(x) && !a.contains(x) implies is_aggregate(es[x].tag)
            && !stop_in_ref(es, es[ks[m]].type_ref, ps@[m].typed, x, false) by {
            if stop_in_ref(es, es[ks[m]].type_ref, ps@[m].typed, x, false) {
                assert(stop_in_parameter(es, ks[m], ps@[m], x, false));
                assert(stop_in_parameters(es, ks, ps, x, false));
            }
        }
        lemma_retarget_ref(es, es[ks[m]].type_ref, ps@[m].typed, a, b);
    }
}

pub proof fn lemma_retarget_function(es: Seq<Entry>, s: int, f: Function, a: Set<int>, b: Set<int>)
    requires
        conforms_function(es, s, f, a),
        retarget_ok(es, a, b, |x: int| stop_in_function(es, s, f, x, false)),
    ensures
        conforms_function(es, s, f, b),
    decreases f, 4nat,
{
    assert(retarget_ok(es, a, b, |x: int| stop_in_ref(es, es[s].type_ref, f.typed, x, false)));
    lemma_retarget_ref(es, es[s].type_ref, f.typed, a, b);
    let ks = children(es, s, Tag::FormalParameter);
    assert(retarget_ok(es, a, b, |x: int| stop_in_parameters(es, ks, f.parameters, x, false)));
    lemma_retarget_parameters(es, ks, f.parameters, a, b);
}

pub proof fn lemma_same_typed_sym(a: Typed, b: Typed)
    requires
        same_typed(a, b),
    ensures
        same_typed(b, a),
    decreases a, 3nat,
{
    lemma_same_value_sym(a.value, b.value);
}

proof fn lemma_same_value_sym(a: TypedValue, b: TypedValue)
    requires
        same_value(a, b),
    ensures
        same_value(b, a),
    decreases a, 2nat,
{
    match (a, b) {
        (TypedValue::Typedef(x), TypedValue::Typedef(y)) => lemma_same_typed_sym(*x, *y),
        (TypedValue::Function(f), TypedValue::Function(g)) => lemma_same_function_sym(*f, *g),
        (TypedValue::Struct(xs), TypedValue::Struct(ys)) => lemma_same_parameters_sym(xs, ys),
        (TypedValue::Union(xs), TypedValue::Union(ys)) => lemma_same_parameters_sym(xs, ys),
        (TypedValue::Array(x, _), TypedValue::Array(y, _)) => lemma_same_typed_sym(*x, *y),
        _ => {},
    }
}

proof fn lemma_same_parameters_sym(xs: Vec<Parameter>, ys: Vec<Parameter>)
    requires
        same_parameters(xs, ys),
    ensures
        same_parameters(ys, xs),
    decreases xs, 1nat,
{
    assert forall|m: int| 0 <= m < ys@.len() implies same_parameter(#[trigger] ys@[m], xs@[m]) by {
        vstd::std_specs::vec::axiom_vec_index_decreases(xs, m);
        lemma_same_typed_sym(xs@[m].typed, ys@[m].typed);
    }
}

proof fn lemma_same_function_sym(f: Function, g: Function)
    requires
        same_function(f, g),
    ensures
        same_function(g, f),
    decreases f, 4nat,
{
    lemma_same_typed_sym(f.typed, g.typed);
    lemma_same_parameters_sym(f.parameters, g.parameters);
}

pub proof fn lemma_same_typed_trans(a: Typed, b: Typed, c: Typed)
    requires
        same_typed(a, b),
        same_typed(b, c),
    ensures
        same_typed(a, c),
    decreases a, 3nat,
{
    lemma_same_value_trans(a.value, b.value, c.value);
}

proof fn lemma_same_value_trans(a: TypedValue, b: TypedValue, c: TypedValue)
    requires
        same_value(a, b),
        same_value(b, c),
    ensures
        same_value(a, c),
    decreases a, 2nat,
{
    match (a, b, c) {
        (TypedValue::Typedef(x), TypedValue::Typedef(y), TypedValue::Typedef(z)) => {
            lemma_same_typed_trans(*x, *y, *z)
        },
        (TypedValue::Function(f), TypedValue::Function(g), TypedValue::Function(h)) => {
            lemma_same_function_trans(*f, *g, *h)
        },
        (TypedValue::Struct(xs), TypedValue::Struct(ys), TypedValue::Struct(zs)) => {
            lemma_same_parameters_trans(xs, ys, zs)
        },
        (TypedValue::Union(xs), TypedValue::Union(ys), TypedValue::Union(zs)) => {
            lemma_same_parameters_trans(xs, ys, zs)
        },
        (TypedValue::Array(x, _), TypedValue::Array(y, _), TypedValue::Array(z, _)) => {
            lemma_same_typed_trans(*x, *y, *z)
        },
        _ => {},
    }
}

proof fn lemma_same_parameters_trans(xs: Vec<Parameter>, ys: Vec<Parameter>, zs: Vec<Parameter>)
    requires
        same_parameters(xs, ys),
        same_parameters(ys, zs),
    ensures
        same_parameters(xs, zs),
    decreases xs, 1nat,
{
    assert forall|m: int| 0 <= m < xs@.len() implies same_parameter(#[trigger] xs@[m], zs@[m]) by {
        vstd::std_specs::vec::axiom_vec_index_decreases(xs, m);
        lemma_same_typed_trans(xs@[m].typed, ys@[m].typed, zs@[m].typed);
    }
}

proof fn lemma_same_function_trans(f: Function, g: Function, h: Function)
    requires
        same_function(f, g),
        same_function(g, h),
    ensures
        same_function(f, h),
    decreases f, 4nat,
{
    lemma_same_typed_trans(f.typed, g.typed, h.typed);
    lemma_same_parameters_trans(f.parameters, g.parameters, h.parameters);
}

} // verus!
