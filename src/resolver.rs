//! The type resolver: from an entry offset to a `Typed`, memoized per unit
//! and safe on cyclic type graphs.
use vstd::prelude::*;
use crate::conform::{
    ChainEnd, chain, conforms_function, conforms_parameter, conforms_parameters, conforms_ref,
    conforms_typed, conforms_value, entry_type_name, is_aggregate, kept_modifiers, name_value, stop_in_function,
    stop_in_parameter, stop_in_parameters, stop_in_ref, stop_in_typed, stop_in_value, walk,
};
use crate::dimension::{parse_dimensionality, dimension};
use crate::entries::{Attr, Entry, Tag, UnitEntries, children, lemma_children, locate};
use crate::model::{
    Function, Modifier, Parameter, ParseError, Typed, TypedValue, is_void, same_typed,
    void_string, void_typed,
};
use crate::same::{
    lemma_conforms_same, lemma_retarget, lemma_same_typed_sym, lemma_same_typed_trans,
    lemma_stop_same, retarget_ok,
};

verus! {

/// The number of entries not yet marked in progress.
pub open spec fn unmarked(s: Seq<bool>) -> nat
    decreases s.len(),
{
    if s.len() == 0 {
        0
    } else {
        unmarked(s.drop_last()) + if s.last() {
            0nat
        } else {
            1nat
        }
    }
}

/// Every mark of `a` is still set in `b`.
pub open spec fn grows(a: Seq<bool>, b: Seq<bool>) -> bool {
    &&& a.len() == b.len()
    &&& forall|i: int| 0 <= i < a.len() && #[trigger] a[i] ==> b[i]
}

proof fn lemma_unmarked_grows(a: Seq<bool>, b: Seq<bool>)
    requires
        grows(a, b),
    ensures
        unmarked(b) <= unmarked(a),
    decreases a.len(),
{
    if a.len() > 0 {
        assert(grows(a.drop_last(), b.drop_last()));
        lemma_unmarked_grows(a.drop_last(), b.drop_last());
    }
}

proof fn lemma_unmarked_mark(a: Seq<bool>, k: int)
    requires
        0 <= k < a.len(),
        !a[k],
    ensures
        unmarked(a.update(k, true)) < unmarked(a),
    decreases a.len(),
{
    let b = a.update(k, true);
    if k < a.len() - 1 {
        assert(b.drop_last() =~= a.drop_last().update(k, true));
        lemma_unmarked_mark(a.drop_last(), k);
    } else {
        assert(b.drop_last() =~= a.drop_last());
    }
}

/// A reference an entry may hold: it can be followed, to an entry whose tag
/// is a type.
pub open spec fn ref_sound(es: Seq<Entry>, r: Attr<u64>) -> bool {
    match r {
        Attr::Absent => true,
        Attr::Present(o) => locate(es, o) matches Some(j) && is_type_tag(es[j].tag),
        Attr::Malformed => false,
    }
}

pub open spec fn is_type_tag(t: Tag) -> bool {
    match t {
        Tag::BaseType | Tag::Modifier(_) | Tag::Subroutine | Tag::TypeDef | Tag::Enum
        | Tag::Struct | Tag::Union | Tag::Array => true,
        _ => false,
    }
}

/// The entry's name and type reference can be read, its reference leads to
/// a type, and, for an array, its dimension can be computed.
pub open spec fn entry_sound(es: Seq<Entry>, i: int) -> bool {
    &&& !(es[i].name is Malformed)
    &&& ref_sound(es, es[i].type_ref)
    &&& (es[i].tag == Tag::Array ==> dimension(es, i) is Ok)
}

/// Every entry of the unit is sound.
pub open spec fn sound(es: Seq<Entry>) -> bool {
    forall|i: int| 0 <= i < es.len() ==> #[trigger] entry_sound(es, i)
}

/// An offset asked for: none, or that of an entry whose tag is a type.
pub open spec fn off_sound(es: Seq<Entry>, off: Option<u64>) -> bool {
    match off {
        None => true,
        Some(o) => locate(es, o) matches Some(j) && is_type_tag(es[j].tag),
    }
}

/// Where the walk along qualifiers stopped.
enum Stop {
    Void,
    Cycle,
    At(usize),
}

/// Where the walk from entry `i` ends in a cycle cut short, given the
/// entries in progress.
pub open spec fn circular_at(es: Seq<Entry>, i: int, in_progress: Seq<bool>) -> bool {
    match walk(es, i).1 {
        ChainEnd::Cycle => true,
        ChainEnd::Stop(s) => in_progress[s],
        _ => false,
    }
}

/// The walk from entry `i` stops at an aggregate entry not yet in progress,
/// whose resolution is then entered.
pub open spec fn enters(es: Seq<Entry>, i: int, in_progress: Seq<bool>) -> bool {
    match walk(es, i).1 {
        ChainEnd::Stop(x) => is_aggregate(es[x].tag) && !in_progress[x],
        _ => false,
    }
}

/// Where the walk from entry `i` stops at an aggregate entry, it is marked.
pub open spec fn stop_marked(es: Seq<Entry>, i: int, in_progress: Seq<bool>) -> bool {
    match walk(es, i).1 {
        ChainEnd::Stop(x) => is_aggregate(es[x].tag) ==> in_progress[x],
        _ => true,
    }
}

/// The optional offset `off` is what the attribute `r` refers to.
pub open spec fn ref_of(r: Attr<u64>, off: Option<u64>) -> bool {
    match r {
        Attr::Absent => off is None,
        Attr::Present(o) => off == Some(o),
        Attr::Malformed => false,
    }
}

/// Resolves the types of one unit's entries.
pub struct Parser {
    pub unit: UnitEntries,
    /// The completed types, by the index of the entry first asked for.
    pub cache: Vec<Option<Typed>>,
    /// The entries whose aggregate body resolution has entered.
    pub in_progress: Vec<bool>,
}

/// The state holds for the entries `anc`: they are in progress, and every
/// completed type describes its entry inside their resolution.
pub open spec fn holds_for(p: Parser, anc: Set<int>) -> bool {
    &&& forall|x: int| #[trigger] anc.contains(x) ==> 0 <= x < p.in_progress@.len() && p.in_progress@[x]
    &&& forall|j: int|
        0 <= j < p.cache@.len() && #[trigger] p.cache@[j] is Some ==> conforms_typed(
            p.unit.entries@,
            j,
            p.cache@[j]->Some_0,
            anc,
        )
}

/// `s1` follows `s0`: the same unit, no mark lost, every completed type kept
/// as it was, and what held of the state for a set of entries still holds.
pub open spec fn keeps(s0: Parser, s1: Parser) -> bool {
    &&& s1.wf()
    &&& s1.unit == s0.unit
    &&& grows(s0.in_progress@, s1.in_progress@)
    &&& unmarked(s1.in_progress@) <= unmarked(s0.in_progress@)
    &&& s1.cache@.len() == s0.cache@.len()
    &&& forall|j: int|
        0 <= j < s0.cache@.len() && #[trigger] s0.cache@[j] is Some ==> s1.cache@[j] == s0.cache@[j]
    &&& forall|anc: Set<int>| #[trigger] holds_for(s0, anc) ==> holds_for(s1, anc)
}

/// From `s0` to `s1` the marks grew only at entries that `stops` entered,
/// and each entry at which `stops` stops is marked in `s1`.
pub open spec fn marks_follow(s0: Parser, s1: Parser, stops: spec_fn(int, bool) -> bool) -> bool {
    &&& forall|x: int|
        0 <= x < s1.in_progress@.len() && #[trigger] s1.in_progress@[x] ==> s0.in_progress@[x] || stops(
            x,
            true,
        )
    &&& forall|x: int| #[trigger] stops(x, false) ==> 0 <= x < s1.in_progress@.len() && s1.in_progress@[x]
}

/// Where a walk stops, it stops at an entry of the unit.
pub proof fn lemma_walk_stop(es: Seq<Entry>, i: int, fuel: nat)
    ensures
        chain(es, i, fuel).1 matches ChainEnd::Stop(s) ==> 0 <= s < es.len(),
    decreases fuel,
{
    if 0 <= i < es.len() {
        if let Tag::Modifier(_) = es[i].tag {
            if let Attr::Present(o) = es[i].type_ref {
                if let Some(j) = locate(es, o) {
                    if fuel > 0 {
                        lemma_walk_stop(es, j, (fuel - 1) as nat);
                    }
                }
            }
        }
    }
}

/// From `s0` to `s1` the marks grew only at the entries that the result
/// entered, and each entry at which it stops is marked in `s1`.
pub open spec fn marks_typed(s0: Parser, s1: Parser, i: int, t: Typed) -> bool {
    &&& forall|x: int|
        0 <= x < s1.in_progress@.len() && #[trigger] s1.in_progress@[x] ==> s0.in_progress@[x]
            || stop_in_typed(s0.unit.entries@, i, t, x, true)
    &&& forall|x: int|
        #[trigger] stop_in_typed(s0.unit.entries@, i, t, x, false) ==> 0 <= x < s1.in_progress@.len()
            && s1.in_progress@[x]
}

/// From `s0` to `s1` the marks grew only at the entries that the result
/// entered, and each entry at which it stops is marked in `s1`.
pub open spec fn marks_ref(s0: Parser, s1: Parser, r: Attr<u64>, t: Typed) -> bool {
    &&& forall|x: int|
        0 <= x < s1.in_progress@.len() && #[trigger] s1.in_progress@[x] ==> s0.in_progress@[x]
            || stop_in_ref(s0.unit.entries@, r, t, x, true)
    &&& forall|x: int|
        #[trigger] stop_in_ref(s0.unit.entries@, r, t, x, false) ==> 0 <= x < s1.in_progress@.len()
            && s1.in_progress@[x]
}

/// From `s0` to `s1` the marks grew only at the entries that the result
/// entered, and each entry at which it stops is marked in `s1`.
pub open spec fn marks_parameter(s0: Parser, s1: Parser, k: int, p: Parameter) -> bool {
    &&& forall|x: int|
        0 <= x < s1.in_progress@.len() && #[trigger] s1.in_progress@[x] ==> s0.in_progress@[x]
            || stop_in_parameter(s0.unit.entries@, k, p, x, true)
    &&& forall|x: int|
        #[trigger] stop_in_parameter(s0.unit.entries@, k, p, x, false) ==> 0 <= x < s1.in_progress@.len()
            && s1.in_progress@[x]
}

/// From `s0` to `s1` the marks grew only at the entries that the result
/// entered, and each entry at which it stops is marked in `s1`.
pub open spec fn marks_parameters(s0: Parser, s1: Parser, ks: Seq<int>, ps: Vec<Parameter>) -> bool {
    &&& forall|x: int|
        0 <= x < s1.in_progress@.len() && #[trigger] s1.in_progress@[x] ==> s0.in_progress@[x]
            || stop_in_parameters(s0.unit.entries@, ks, ps, x, true)
    &&& forall|x: int|
        #[trigger] stop_in_parameters(s0.unit.entries@, ks, ps, x, false) ==> 0 <= x < s1.in_progress@.len()
            && s1.in_progress@[x]
}

/// From `s0` to `s1` the marks grew only at the entries that the result
/// entered, and each entry at which it stops is marked in `s1`.
pub open spec fn marks_function(s0: Parser, s1: Parser, s: int, f: Function) -> bool {
    &&& forall|x: int|
        0 <= x < s1.in_progress@.len() && #[trigger] s1.in_progress@[x] ==> s0.in_progress@[x]
            || stop_in_function(s0.unit.entries@, s, f, x, true)
    &&& forall|x: int|
        #[trigger] stop_in_function(s0.unit.entries@, s, f, x, false) ==> 0 <= x < s1.in_progress@.len()
            && s1.in_progress@[x]
}

/// `t`, resolved from entry `i` on the way from `s0` to `s1`, describes the
/// entry inside the resolution of each set of entries that `s0` held for;
/// the marks grew only at the entries that `t` entered.
pub open spec fn resolved_typed(s0: Parser, s1: Parser, i: int, t: Typed) -> bool {
    &&& forall|anc: Set<int>| #[trigger] holds_for(s0, anc) ==> conforms_typed(s0.unit.entries@, i, t, anc)
    &&& marks_follow(s0, s1, |x: int, e: bool| stop_in_typed(s0.unit.entries@, i, t, x, e))
    &&& marks_typed(s0, s1, i, t)
}

pub open spec fn resolved_ref(s0: Parser, s1: Parser, r: Attr<u64>, t: Typed) -> bool {
    &&& forall|anc: Set<int>| #[trigger] holds_for(s0, anc) ==> conforms_ref(s0.unit.entries@, r, t, anc)
    &&& marks_follow(s0, s1, |x: int, e: bool| stop_in_ref(s0.unit.entries@, r, t, x, e))
    &&& marks_ref(s0, s1, r, t)
}

pub open spec fn resolved_parameter(s0: Parser, s1: Parser, k: int, p: Parameter) -> bool {
    &&& forall|anc: Set<int>| #[trigger] holds_for(s0, anc) ==> conforms_parameter(s0.unit.entries@, k, p, anc)
    &&& marks_follow(s0, s1, |x: int, e: bool| stop_in_parameter(s0.unit.entries@, k, p, x, e))
    &&& marks_parameter(s0, s1, k, p)
}

pub open spec fn resolved_parameters(s0: Parser, s1: Parser, ks: Seq<int>, ps: Vec<Parameter>) -> bool {
    &&& forall|anc: Set<int>| #[trigger] holds_for(s0, anc) ==> conforms_parameters(s0.unit.entries@, ks, ps, anc)
    &&& marks_follow(s0, s1, |x: int, e: bool| stop_in_parameters(s0.unit.entries@, ks, ps, x, e))
    &&& marks_parameters(s0, s1, ks, ps)
}

pub open spec fn resolved_function(s0: Parser, s1: Parser, s: int, f: Function) -> bool {
    &&& forall|anc: Set<int>| #[trigger] holds_for(s0, anc) ==> conforms_function(s0.unit.entries@, s, f, anc)
    &&& marks_follow(s0, s1, |x: int, e: bool| stop_in_function(s0.unit.entries@, s, f, x, e))
    &&& marks_function(s0, s1, s, f)
}

/// What one resolution of `off` from state `s0` gives, ending in state `s1`.
pub open spec fn resolve_post(
    s0: Parser,
    off: Option<u64>,
    r: Result<Typed, ParseError>,
    s1: Parser,
) -> bool {
    let es = s0.unit.entries@;
    let unchanged = s1.cache@ == s0.cache@ && s1.in_progress@ == s0.in_progress@;
    match off {
        None => r matches Ok(t) && is_void(t) && unchanged,
        Some(o) => match locate(es, o) {
            None => r == Err::<Typed, ParseError>(ParseError::BadReference(o)) && unchanged,
            Some(i) => match s0.cache@[i] {
                Some(c) => r matches Ok(t) && same_typed(t, c) && unchanged,
                None => r matches Ok(t) ==> {
                    &&& conforms_typed(es, i, t, Set::empty())
                    &&& resolved_typed(s0, s1, i, t)
                    &&& s1.cache@[i] matches Some(c) && same_typed(c, t)
                    &&& (t.value is Circular <==> circular_at(es, i, s0.in_progress@))
                    &&& stop_marked(es, i, s1.in_progress@)
                    &&& (!enters(es, i, s0.in_progress@) ==> {
                        &&& s1.in_progress@ == s0.in_progress@
                        &&& s1.cache@ == s0.cache@.update(i, s1.cache@[i])
                    })
                },
            },
        },
    }
}

/// Once resolved, an offset is not decoded again: a later resolution of it,
/// from any state that kept the completed types, gives a structurally
/// identical type and leaves the cache and the in-progress marks as they were.
pub proof fn lemma_memoized(
    s0: Parser,
    off: Option<u64>,
    r1: Result<Typed, ParseError>,
    s1: Parser,
    s2: Parser,
    r2: Result<Typed, ParseError>,
    s3: Parser,
)
    requires
        s0.wf(),
        s1.unit == s0.unit,
        resolve_post(s0, off, r1, s1),
        keeps(s1, s2),
        resolve_post(s2, off, r2, s3),
        r1 is Ok,
    ensures
        r2 is Ok,
        same_typed(r2->Ok_0, r1->Ok_0),
        s3.cache@ == s2.cache@,
        s3.in_progress@ == s2.in_progress@,
{
    let es = s0.unit.entries@;
    if off is None {
        assert(r2->Ok_0.modifiers@ =~= r1->Ok_0.modifiers@);
    }
    if let Some(o) = off {
        if let Some(i) = locate(es, o) {
            assert(0 <= i < es.len());
            let t1 = r1->Ok_0;
            let t2 = r2->Ok_0;
            let c = s1.cache@[i]->Some_0;
            if let Some(c0) = s0.cache@[i] {
                assert(c == c0);
                lemma_same_typed_sym(t1, c);
            }
            assert(s1.cache@[i] is Some);
            assert(s2.cache@[i] == s1.cache@[i]);
            lemma_same_typed_trans(t2, c, t1);
        }
    }
}

/// A successful resolution of a reference describes what it refers to.
proof fn lemma_resolved(s0: Parser, off: Option<u64>, t: Typed, s1: Parser, a: Attr<u64>)
    requires
        s0.wf(),
        keeps(s0, s1),
        resolve_post(s0, off, Ok(t), s1),
        typed_result(s0, s1, off, t),
        ref_of(a, off),
    ensures
        resolved_ref(s0, s1, a, t),
{
    let es = s0.unit.entries@;
    if off is None {
        assert forall|anc: Set<int>| #[trigger] holds_for(s0, anc) implies conforms_ref(es, a, t, anc) by {}
        assert(s1.in_progress@ == s0.in_progress@);
        assert(marks_follow(s0, s1, |x: int, e: bool| stop_in_ref(es, a, t, x, e)));
    } else {
        let i = locate(es, off->Some_0)->Some_0;
        assert forall|anc: Set<int>| #[trigger] holds_for(s0, anc) implies conforms_ref(es, a, t, anc) by {
            assert(conforms_typed(es, i, t, anc));
        }
        lemma_follow_same(
            s0,
            s1,
            |x: int, e: bool| stop_in_typed(es, i, t, x, e),
            |x: int, e: bool| stop_in_ref(es, a, t, x, e),
        );
    }
    lemma_marks_ref(s0, s1, a, t);
}

impl Parser {
    pub open spec fn wf(&self) -> bool {
        &&& self.unit.wf()
        &&& self.cache@.len() == self.unit.entries@.len()
        &&& self.in_progress@.len() == self.unit.entries@.len()
        &&& holds_for(*self, Set::empty())
        &&& forall|x: int|
            0 <= x < self.in_progress@.len() && #[trigger] self.in_progress@[x] ==> is_aggregate(
                self.unit.entries@[x].tag,
            )
        &&& forall|j: int, x: int|
            0 <= j < self.cache@.len() && #[trigger] self.cache@[j] is Some && #[trigger] stop_in_typed(
                self.unit.entries@,
                j,
                self.cache@[j]->Some_0,
                x,
                false,
            ) ==> 0 <= x < self.in_progress@.len() && self.in_progress@[x]
    }

    /// A parser of the unit, with nothing resolved yet.
    pub fn new(unit: UnitEntries) -> (p: Parser)
        requires
            unit.wf(),
        ensures
            p.wf(),
            p.unit == unit,
            forall|i: int| 0 <= i < p.cache@.len() ==> #[trigger] p.cache@[i] is None,
            forall|i: int| 0 <= i < p.in_progress@.len() ==> !#[trigger] p.in_progress@[i],
    {
        let n = unit.entries.len();
        let mut cache: Vec<Option<Typed>> = Vec::new();
        let mut in_progress: Vec<bool> = Vec::new();
        let mut i: usize = 0;
        while i < n
            invariant
                i <= n,
                cache@.len() == i,
                in_progress@.len() == i,
                forall|j: int| 0 <= j < i ==> #[trigger] cache@[j] is None,
                forall|j: int| 0 <= j < i ==> !#[trigger] in_progress@[j],
            decreases n - i,
        {
            cache.push(None);
            in_progress.push(false);
            i = i + 1;
        }
        Parser { unit, cache, in_progress }
    }

    /// The index of the entry at offset `o`.
    pub fn cursor_at_offset(&self, o: u64) -> (r: Option<usize>)
        requires
            self.wf(),
        ensures
            r matches Some(i) ==> locate(self.unit.entries@, o) == Some(i as int),
            r is None ==> locate(self.unit.entries@, o) is None,
    {
        self.unit.find(o)
    }

    /// The classified tag of entry `i`.
    pub fn parse_tag(&self, i: usize) -> (t: Tag)
        requires
            i < self.unit.entries@.len(),
        ensures
            t == self.unit.entries@[i as int].tag,
    {
        self.unit.entries[i].tag
    }

    /// The entry's name, if it has one.
    pub fn parse_name(&self, i: usize) -> (r: Result<Option<String>, ParseError>)
        requires
            i < self.unit.entries@.len(),
        ensures
            match self.unit.entries@[i as int].name {
                Attr::Malformed => r == Err::<Option<String>, ParseError>(
                    ParseError::MalformedAttribute(self.unit.entries@[i as int].offset),
                ),
                _ => r == Ok::<Option<String>, ParseError>(name_value(self.unit.entries@[i as int])),
            },
    {
        let e = &self.unit.entries[i];
        match &e.name {
            Attr::Present(s) => Ok(Some(s.clone())),
            Attr::Absent => Ok(None),
            Attr::Malformed => Err(ParseError::MalformedAttribute(e.offset)),
        }
    }

    /// The name a type takes from the entry: its own, or `void`.
    fn parse_type_name(&self, i: usize) -> (r: Result<String, ParseError>)
        requires
            i < self.unit.entries@.len(),
        ensures
            match r {
                Ok(s) => s@ == entry_type_name(self.unit.entries@[i as int]),
                Err(e) => self.unit.entries@[i as int].name is Malformed && e
                    == ParseError::MalformedAttribute(self.unit.entries@[i as int].offset),
            },
            self.unit.entries@[i as int].name is Malformed ==> r is Err,
    {
        match self.parse_name(i) {
            Ok(Some(s)) => Ok(s),
            Ok(None) => Ok(void_string()),
            Err(e) => Err(e),
        }
    }

    /// The offset of the type the entry refers to, if it refers to one.
    pub fn parse_type_offset(&self, i: usize) -> (r: Result<Option<u64>, ParseError>)
        requires
            i < self.unit.entries@.len(),
        ensures
            match r {
                Ok(off) => ref_of(self.unit.entries@[i as int].type_ref, off),
                Err(e) => self.unit.entries@[i as int].type_ref is Malformed && e
                    == ParseError::MalformedAttribute(self.unit.entries@[i as int].offset),
            },
            self.unit.entries@[i as int].type_ref is Malformed ==> r is Err,
    {
        let e = &self.unit.entries[i];
        match &e.type_ref {
            Attr::Present(o) => Ok(Some(*o)),
            Attr::Absent => Ok(None),
            Attr::Malformed => Err(ParseError::MalformedAttribute(e.offset)),
        }
    }

    /// Marks entry `s` as in progress.
    fn mark(&mut self, s: usize)
        requires
            old(self).wf(),
            s < old(self).in_progress@.len(),
            !old(self).in_progress@[s as int],
            is_aggregate(old(self).unit.entries@[s as int].tag),
        ensures
            final(self).wf(),
            final(self).unit == old(self).unit,
            final(self).cache@ == old(self).cache@,
            final(self).in_progress@ == old(self).in_progress@.update(s as int, true),
            keeps(*old(self), *final(self)),
            unmarked(final(self).in_progress@) < unmarked(old(self).in_progress@),
            forall|anc: Set<int>|
                #[trigger] holds_for(*old(self), anc) ==> holds_for(*final(self), anc.insert(s as int)),
    {
        let ghost s0 = *self;
        self.in_progress.set(s, true);
        proof {
            let es = s0.unit.entries@;
            lemma_unmarked_mark(s0.in_progress@, s as int);
            assert forall|anc: Set<int>| #[trigger] holds_for(s0, anc) implies holds_for(*self, anc)
                && holds_for(*self, anc.insert(s as int)) by {
                assert forall|j: int|
                    0 <= j < self.cache@.len() && #[trigger] self.cache@[j] is Some implies conforms_typed(
                        es,
                        j,
                        self.cache@[j]->Some_0,
                        anc.insert(s as int),
                    ) by {
                    let c = self.cache@[j]->Some_0;
                    assert(!stop_in_typed(es, j, c, s as int, false));
                    assert(retarget_ok(es, anc, anc.insert(s as int), |x: int| stop_in_typed(es, j, c, x, false)));
                    lemma_retarget(es, j, c, anc, anc.insert(s as int));
                }
            }
            assert(holds_for(s0, Set::empty()));
        }
    }

    #[verifier::spinoff_prover]
    #[verifier::rlimit(80)]
    /// The type that `off` refers to: `void` where there is none; the
    /// completed type where this offset was resolved before; else the
    /// qualifiers met on the walk from it and what the walk stops at, with
    /// `Circular` where that entry is still in progress.
    pub fn parse_type(&mut self, off: Option<u64>) -> (r: Result<Typed, ParseError>)
        requires
            old(self).wf(),
        ensures
            keeps(*old(self), *final(self)),
            resolve_post(*old(self), off, r, *final(self)),
            r matches Ok(t) ==> typed_result(*old(self), *final(self), off, t),
            sound(old(self).unit.entries@) && off_sound(old(self).unit.entries@, off) ==> r is Ok,
        decreases unmarked(old(self).in_progress@), 0nat,
    {
        let ghost es = self.unit.entries@;
        let ghost s0 = *self;
        let o = match off {
            None => {
                return Ok(void_typed());
            },
            Some(o) => o,
        };
        let idx = match self.cursor_at_offset(o) {
            Some(i) => i,
            None => {
                return Err(ParseError::BadReference(o));
            },
        };
        if let Some(c) = &self.cache[idx] {
            let t = c.clone();
            proof {
                let c = s0.cache@[idx as int]->Some_0;
                assert forall|anc: Set<int>| #[trigger] holds_for(s0, anc) implies conforms_typed(
                    es,
                    idx as int,
                    t,
                    anc,
                ) by {
                    lemma_conforms_same(es, idx as int, t, c, anc);
                }
                assert forall|x: int, e: bool| stop_in_typed(es, idx as int, t, x, e) == stop_in_typed(
                    es,
                    idx as int,
                    c,
                    x,
                    e,
                ) by {
                    lemma_stop_same(es, idx as int, t, c, x, e);
                }
            }
            return Ok(t);
        }
        let n = self.unit.entries.len();
        let ghost w = walk(es, idx as int);
        let mut mods: Vec<Modifier> = Vec::new();
        let mut cur: usize = idx;
        let mut fuel: usize = n;
        let mut stop = Stop::Void;
        loop
            invariant_except_break
                mods@ + chain(es, cur as int, fuel as nat).0 == w.0,
                chain(es, cur as int, fuel as nat).1 == w.1,
            invariant
                self.wf(),
                self == old(self),
                s0 == *self,
                es == self.unit.entries@,
                n == es.len(),
                cur < n,
                fuel <= n,
                w == walk(es, idx as int),
                off == Some(o),
                idx < n,
                locate(es, o) == Some(idx as int),
                self.cache@[idx as int] is None,
                sound(es) && off_sound(es, off) ==> is_type_tag(es[cur as int].tag),
            ensures
                self.wf(),
                self == old(self),
                s0 == *self,
                match stop {
                    Stop::Void => w.1 is Void && mods@ == w.0,
                    Stop::Cycle => w.1 is Cycle && mods@ == w.0,
                    Stop::At(s) => w.1 == ChainEnd::Stop(s as int) && mods@ == w.0 && s < n && !(
                    es[s as int].tag is Modifier) && (sound(es) && off_sound(es, off) ==> is_type_tag(
                        es[s as int].tag,
                    )),
                },
            decreases fuel,
        {
            match self.parse_tag(cur) {
                Tag::Modifier(m) => {
                    proof {
                        assert(entry_sound(es, cur as int) ==> ref_sound(es, es[cur as int].type_ref));
                    }
                    mods.push(m);
                    match self.parse_type_offset(cur) {
                        Err(e) => {
                            proof {
                                assert(!entry_sound(es, cur as int));
                            }
                            return Err(e);
                        },
                        Ok(None) => {
                            assert(mods@ =~= w.0);
                            stop = Stop::Void;
                            break;
                        },
                        Ok(Some(o2)) => {
                            match self.cursor_at_offset(o2) {
                                None => {
                                    proof {
                                        assert(!entry_sound(es, cur as int));
                                    }
                                    return Err(ParseError::BadReference(o2));
                                },
                                Some(j) => {
                                    if fuel == 0 {
                                        assert(mods@ =~= w.0);
                                        stop = Stop::Cycle;
                                        break;
                                    }
                                    let ghost rest = chain(es, j as int, (fuel - 1) as nat);
                                    assert(mods@ + rest.0 =~= w.0);
                                    cur = j;
                                    fuel = fuel - 1;
                                },
                            }
                        },
                    }
                },
                _ => {
                    assert(mods@ =~= w.0);
                    stop = Stop::At(cur);
                    break;
                },
            }
        }
        let t = match stop {
            Stop::Void => Typed { name: void_string(), value: TypedValue::Base, modifiers: mods },
            Stop::Cycle => Typed { name: void_string(), value: TypedValue::Circular, modifiers: mods },
            Stop::At(s) => {
                if self.in_progress[s] {
                    Typed { name: void_string(), value: TypedValue::Circular, modifiers: mods }
                } else {
                    proof {
                        assert(sound(es) ==> entry_sound(es, s as int));
                    }
                    match self.parse_tag(s) {
                        Tag::BaseType => {
                            let name = match self.parse_type_name(s) {
                                Ok(x) => x,
                                Err(e) => return Err(e),
                            };
                            Typed { name, value: TypedValue::Base, modifiers: mods }
                        },
                        Tag::Enum => {
                            let name = match self.parse_type_name(s) {
                                Ok(x) => x,
                                Err(e) => return Err(e),
                            };
                            Typed { name, value: TypedValue::Enum, modifiers: mods }
                        },
                        Tag::TypeDef => {
                            self.mark(s);
                            let ghost s1 = *self;
                            let inner_off = match self.parse_type_offset(s) {
                                Ok(x) => x,
                                Err(e) => return Err(e),
                            };
                            let inner = self.parse_type(inner_off);
                            let inner = match inner {
                                Ok(x) => x,
                                Err(e) => return Err(e),
                            };
                            let name = match self.parse_type_name(s) {
                                Ok(x) => x,
                                Err(e) => return Err(e),
                            };
                            let t = Typed {
                                name,
                                value: TypedValue::Typedef(Box::new(inner)),
                                modifiers: mods,
                            };
                            proof {
                                lemma_resolved(s1, inner_off, inner, *self, es[s as int].type_ref);
                                lemma_follow_same(
                                    s1,
                                    *self,
                                    |x: int, e: bool| stop_in_ref(es, es[s as int].type_ref, inner, x, e),
                                    |x: int, e: bool| stop_in_value(es, s as int, t.value, x, e),
                                );
                                lemma_enter(s0, s1, *self, idx as int, s as int, t);
                            }
                            t
                        },
                        Tag::Subroutine => {
                            self.mark(s);
                            let ghost s1 = *self;
                            if mods.len() > 0 && mods[mods.len() - 1] == Modifier::Pointer {
                                mods.pop();
                            }
                            assert(mods@ == kept_modifiers(Tag::Subroutine, w.0));
                            let f = match self.parse_subprogram(s) {
                                Ok(x) => x,
                                Err(e) => return Err(e),
                            };
                            let name = match self.parse_type_name(s) {
                                Ok(x) => x,
                                Err(e) => return Err(e),
                            };
                            let t = Typed {
                                name,
                                value: TypedValue::Function(Box::new(f)),
                                modifiers: mods,
                            };
                            proof {
                                lemma_follow_same(
                                    s1,
                                    *self,
                                    |x: int, e: bool| stop_in_function(es, s as int, f, x, e),
                                    |x: int, e: bool| stop_in_value(es, s as int, t.value, x, e),
                                );
                                lemma_enter(s0, s1, *self, idx as int, s as int, t);
                            }
                            t
                        },
                        Tag::Struct => {
                            self.mark(s);
                            let ghost s1 = *self;
                            let ms = match self.parse_members(s) {
                                Ok(x) => x,
                                Err(e) => return Err(e),
                            };
                            let name = match self.parse_type_name(s) {
                                Ok(x) => x,
                                Err(e) => return Err(e),
                            };
                            let t = Typed { name, value: TypedValue::Struct(ms), modifiers: mods };
                            proof {
                                lemma_follow_same(
                                    s1,
                                    *self,
                                    |x: int, e: bool| stop_in_parameters(es, children(es, s as int, Tag::Member), ms, x, e),
                                    |x: int, e: bool| stop_in_value(es, s as int, t.value, x, e),
                                );
                                lemma_enter(s0, s1, *self, idx as int, s as int, t);
                            }
                            t
                        },
                        Tag::Union => {
                            self.mark(s);
                            let ghost s1 = *self;
                            let ms = match self.parse_members(s) {
                                Ok(x) => x,
                                Err(e) => return Err(e),
                            };
                            let name = match self.parse_type_name(s) {
                                Ok(x) => x,
                                Err(e) => return Err(e),
                            };
                            let t = Typed { name, value: TypedValue::Union(ms), modifiers: mods };
                            proof {
                                lemma_follow_same(
                                    s1,
                                    *self,
                                    |x: int, e: bool| stop_in_parameters(es, children(es, s as int, Tag::Member), ms, x, e),
                                    |x: int, e: bool| stop_in_value(es, s as int, t.value, x, e),
                                );
                                lemma_enter(s0, s1, *self, idx as int, s as int, t);
                            }
                            t
                        },
                        Tag::Array => {
                            self.mark(s);
                            let ghost s1 = *self;
                            let el_off = match self.parse_type_offset(s) {
                                Ok(x) => x,
                                Err(e) => return Err(e),
                            };
                            let el = self.parse_type(el_off);
                            let el = match el {
                                Ok(x) => x,
                                Err(e) => return Err(e),
                            };
                            let d = match parse_dimensionality(&self.unit, s) {
                                Ok(x) => x,
                                Err(e) => return Err(e),
                            };
                            let name = match self.parse_type_name(s) {
                                Ok(x) => x,
                                Err(e) => return Err(e),
                            };
                            let t = Typed {
                                name,
                                value: TypedValue::Array(Box::new(el), d),
                                modifiers: mods,
                            };
                            proof {
                                lemma_resolved(s1, el_off, el, *self, es[s as int].type_ref);
                                lemma_follow_same(
                                    s1,
                                    *self,
                                    |x: int, e: bool| stop_in_ref(es, es[s as int].type_ref, el, x, e),
                                    |x: int, e: bool| stop_in_value(es, s as int, t.value, x, e),
                                );
                                lemma_enter(s0, s1, *self, idx as int, s as int, t);
                            }
                            t
                        },
                        _ => {
                            return Err(ParseError::UnsupportedTag(self.unit.entries[s].offset));
                        },
                    }
                }
            },
        };
        proof {
            if !enters(es, idx as int, s0.in_progress@) {
                assert(conforms_typed(es, idx as int, t, Set::empty()));
                lemma_plain(s0, idx as int, t);
            }
        }
        assert(resolved_typed(s0, *self, idx as int, t));
        assert(keeps(s0, *self));
        let ghost s2 = *self;
        let c = t.clone();
        self.cache.set(idx, Some(c));
        proof {
            lemma_store(s0, s2, *self, idx as int, t, c);
            assert(holds_for(s0, Set::empty()));
            assert(conforms_typed(es, idx as int, t, Set::empty()));
            assert(t.value is Circular <==> circular_at(es, idx as int, s0.in_progress@));
            lemma_walk_stop(es, idx as int, es.len() as nat);
            if let ChainEnd::Stop(x) = walk(es, idx as int).1 {
                if is_aggregate(es[x].tag) && !s0.in_progress@[x] {
                    assert(!(t.value is Circular));
                    assert(stop_in_typed(es, idx as int, t, x, false));
                    lemma_follow_at(s0, *self, |y: int, e: bool| stop_in_typed(es, idx as int, t, y, e), x);
                }
            }
            assert(stop_marked(es, idx as int, self.in_progress@));
            if !enters(es, idx as int, s0.in_progress@) {
                assert(self.in_progress@ == s0.in_progress@);
                assert(self.cache@ =~= s0.cache@.update(idx as int, self.cache@[idx as int]));
            }
        }
        Ok(t)
    }

    /// A formal parameter or member: the entry's name and the type it
    /// refers to.
    pub fn parse_parameter(&mut self, k: usize) -> (r: Result<Parameter, ParseError>)
        requires
            old(self).wf(),
            k < old(self).unit.entries@.len(),
        ensures
            keeps(*old(self), *final(self)),
            r matches Ok(p) ==> resolved_parameter(*old(self), *final(self), k as int, p),
            sound(old(self).unit.entries@) ==> r is Ok,
        decreases unmarked(old(self).in_progress@), 1nat,
    {
        let ghost es = self.unit.entries@;
        let ghost s0 = *self;
        proof {
            assert(sound(es) ==> entry_sound(es, k as int));
        }
        let name = match self.parse_name(k) {
            Ok(x) => x,
            Err(e) => return Err(e),
        };
        let off = match self.parse_type_offset(k) {
            Ok(x) => x,
            Err(e) => return Err(e),
        };
        let typed = self.parse_type(off);
        let typed = match typed {
            Ok(x) => x,
            Err(e) => return Err(e),
        };
        let p = Parameter { name, typed };
        proof {
            lemma_resolved(s0, off, typed, *self, es[k as int].type_ref);
            lemma_follow_same(
                s0,
                *self,
                |x: int, e: bool| stop_in_ref(es, es[k as int].type_ref, typed, x, e),
                |x: int, e: bool| stop_in_parameter(es, k as int, p, x, e),
            );
            lemma_marks_parameter(s0, *self, k as int, p);
        }
        Ok(p)
    }

    /// The direct children of entry `p` tagged `t`, each as a parameter, in
    /// order.
    pub fn parse_children(&mut self, p: usize, t: Tag) -> (r: Result<Vec<Parameter>, ParseError>)
        requires
            old(self).wf(),
            p < old(self).unit.entries@.len(),
        ensures
            keeps(*old(self), *final(self)),
            r matches Ok(ps) ==> resolved_parameters(
                *old(self),
                *final(self),
                children(old(self).unit.entries@, p as int, t),
                ps,
            ),
            children(old(self).unit.entries@, p as int, t).len() == 0 ==> {
                &&& r matches Ok(ps) && ps@.len() == 0
                &&& final(self).cache@ == old(self).cache@
                &&& final(self).in_progress@ == old(self).in_progress@
            },
            sound(old(self).unit.entries@) ==> r is Ok,
        decreases unmarked(old(self).in_progress@), 2nat,
    {
        let ghost es = self.unit.entries@;
        let ghost s0 = *self;
        let ghost ks = children(es, p as int, t);
        let kids = self.unit.children(p, t);
        proof {
            lemma_children(es, p as int, t);
            assert(kids@.map_values(|i: usize| i as int).len() == kids@.len());
        }
        let mut ps: Vec<Parameter> = Vec::new();
        let mut i: usize = 0;
        while i < kids.len()
            invariant
                self.wf(),
                keeps(s0, *self),
                s0 == *old(self),
                es == self.unit.entries@,
                ks == children(es, p as int, t),
                kids@.map_values(|i: usize| i as int) == ks,
                forall|m: int| 0 <= m < ks.len() ==> 0 <= #[trigger] ks[m] < es.len(),
                i <= kids@.len() == ks.len(),
                ps@.len() == i,
                forall|anc: Set<int>|
                    #[trigger] holds_for(s0, anc) ==> forall|m: int|
                        0 <= m < i ==> conforms_parameter(es, ks[m], #[trigger] ps@[m], anc),
                forall|x: int|
                    0 <= x < self.in_progress@.len() && #[trigger] self.in_progress@[x] ==> s0.in_progress@[x]
                        || exists|m: int| 0 <= m < i && stop_in_parameter(es, ks[m], #[trigger] ps@[m], x, true),
                forall|x: int, m: int|
                    0 <= m < i && #[trigger] stop_in_parameter(es, ks[m], ps@[m], x, false) ==> 0 <= x
                        < self.in_progress@.len() && self.in_progress@[x],
                i == 0 ==> self.cache@ == s0.cache@ && self.in_progress@ == s0.in_progress@,
            decreases kids@.len() - i,
        {
            assert(ks[i as int] == kids@.map_values(|i: usize| i as int)[i as int]);
            let ghost si = *self;
            let q = match self.parse_parameter(kids[i]) {
                Ok(x) => x,
                Err(e) => return Err(e),
            };
            let ghost old_ps = ps@;
            ps.push(q);
            proof {
                lemma_keeps_trans(s0, si, *self);
                assert(ps@[i as int] == q);
                assert forall|m: int| 0 <= m < i implies ps@[m] == old_ps[m] by {}
                assert forall|anc: Set<int>| #[trigger] holds_for(s0, anc) implies forall|m: int|
                    0 <= m < i + 1 ==> conforms_parameter(es, ks[m], #[trigger] ps@[m], anc) by {
                    assert(holds_for(si, anc));
                    assert(conforms_parameter(es, ks[i as int], q, anc));
                }
                assert forall|x: int|
                    0 <= x < self.in_progress@.len() && #[trigger] self.in_progress@[x] implies s0.in_progress@[x]
                        || exists|m: int| 0 <= m < i + 1 && stop_in_parameter(es, ks[m], #[trigger] ps@[m], x, true) by {
                    if !si.in_progress@[x] {
                        assert(stop_in_parameter(es, ks[i as int], ps@[i as int], x, true));
                    } else if !s0.in_progress@[x] {
                        let m = choose|m: int| 0 <= m < i && stop_in_parameter(es, ks[m], #[trigger] old_ps[m], x, true);
                        assert(stop_in_parameter(es, ks[m], ps@[m], x, true));
                    }
                }
                assert forall|x: int, m: int|
                    0 <= m < i + 1 && #[trigger] stop_in_parameter(es, ks[m], ps@[m], x, false) implies 0 <= x
                        < self.in_progress@.len() && self.in_progress@[x] by {
                    if m < i {
                        assert(stop_in_parameter(es, ks[m], old_ps[m], x, false));
                        assert(si.in_progress@[x]);
                    } else {
                        lemma_follow_at(si, *self, |y: int, e: bool| stop_in_parameter(es, ks[i as int], q, y, e), x);
                    }
                }
            }
            i = i + 1;
        }
        proof {
            assert forall|anc: Set<int>| #[trigger] holds_for(s0, anc) implies conforms_parameters(es, ks, ps, anc) by {
                assert forall|m: int| 0 <= m < ks.len() implies conforms_parameter(es, ks[m], #[trigger] ps@[m], anc) by {}
            }
            assert forall|x: int|
                0 <= x < self.in_progress@.len() && #[trigger] self.in_progress@[x] implies s0.in_progress@[x]
                    || stop_in_parameters(es, ks, ps, x, true) by {
                if !s0.in_progress@[x] {
                    let m = choose|m: int| 0 <= m < i && stop_in_parameter(es, ks[m], #[trigger] ps@[m], x, true);
                    assert(stop_in_parameter(es, ks[m], ps@[m], x, true));
                }
            }
            assert forall|x: int| #[trigger] stop_in_parameters(es, ks, ps, x, false) implies 0 <= x
                < self.in_progress@.len() && self.in_progress@[x] by {
                let m = choose|m: int| 0 <= m < ks.len() && m < ps@.len() && stop_in_parameter(es, ks[m], #[trigger] ps@[m], x, false);
                assert(stop_in_parameter(es, ks[m], ps@[m], x, false));
            }
        }
        Ok(ps)
    }

    /// The members of a struct or union entry, in order.
    pub fn parse_members(&mut self, s: usize) -> (r: Result<Vec<Parameter>, ParseError>)
        requires
            old(self).wf(),
            s < old(self).unit.entries@.len(),
        ensures
            keeps(*old(self), *final(self)),
            r matches Ok(ps) ==> resolved_parameters(
                *old(self),
                *final(self),
                children(old(self).unit.entries@, s as int, Tag::Member),
                ps,
            ),
            children(old(self).unit.entries@, s as int, Tag::Member).len() == 0 ==> {
                &&& r matches Ok(ps) && ps@.len() == 0
                &&& final(self).cache@ == old(self).cache@
                &&& final(self).in_progress@ == old(self).in_progress@
            },
            sound(old(self).unit.entries@) ==> r is Ok,
        decreases unmarked(old(self).in_progress@), 3nat,
    {
        self.parse_children(s, Tag::Member)
    }

    /// The formal parameters of a subprogram or subroutine entry, in order.
    pub fn parse_parameters(&mut self, s: usize) -> (r: Result<Vec<Parameter>, ParseError>)
        requires
            old(self).wf(),
            s < old(self).unit.entries@.len(),
        ensures
            keeps(*old(self), *final(self)),
            r matches Ok(ps) ==> resolved_parameters(
                *old(self),
                *final(self),
                children(old(self).unit.entries@, s as int, Tag::FormalParameter),
                ps,
            ),
            children(old(self).unit.entries@, s as int, Tag::FormalParameter).len() == 0 ==> {
                &&& r matches Ok(ps) && ps@.len() == 0
                &&& final(self).cache@ == old(self).cache@
                &&& final(self).in_progress@ == old(self).in_progress@
            },
            sound(old(self).unit.entries@) ==> r is Ok,
        decreases unmarked(old(self).in_progress@), 3nat,
    {
        self.parse_children(s, Tag::FormalParameter)
    }

    /// A function signature from a subprogram or subroutine entry: its name
    /// and return type, and its formal parameters in order.
    pub fn parse_subprogram(&mut self, s: usize) -> (r: Result<Function, ParseError>)
        requires
            old(self).wf(),
            s < old(self).unit.entries@.len(),
        ensures
            keeps(*old(self), *final(self)),
            r matches Ok(f) ==> resolved_function(*old(self), *final(self), s as int, f),
            sound(old(self).unit.entries@) ==> r is Ok,
        decreases unmarked(old(self).in_progress@), 4nat,
    {
        let ghost es = self.unit.entries@;
        let ghost s0 = *self;
        let declarator = match self.parse_parameter(s) {
            Ok(x) => x,
            Err(e) => return Err(e),
        };
        let ghost s1 = *self;
        let parameters = match self.parse_parameters(s) {
            Ok(x) => x,
            Err(e) => return Err(e),
        };
        let f = Function { name: declarator.name, typed: declarator.typed, parameters };
        proof {
            let ks = children(es, s as int, Tag::FormalParameter);
            lemma_keeps_trans(s0, s1, *self);
            assert forall|anc: Set<int>| #[trigger] holds_for(s0, anc) implies conforms_function(es, s as int, f, anc) by {
                assert(holds_for(s1, anc));
                assert(conforms_parameter(es, s as int, declarator, anc));
            }
            assert forall|x: int|
                0 <= x < self.in_progress@.len() && #[trigger] self.in_progress@[x] implies s0.in_progress@[x]
                    || stop_in_function(es, s as int, f, x, true) by {
                if !s1.in_progress@[x] {
                    assert(stop_in_parameters(es, ks, f.parameters, x, true));
                } else if !s0.in_progress@[x] {
                    assert(stop_in_parameter(es, s as int, declarator, x, true));
                }
            }
            assert forall|x: int| #[trigger] stop_in_function(es, s as int, f, x, false) implies 0 <= x
                < self.in_progress@.len() && self.in_progress@[x] by {
                if stop_in_ref(es, es[s as int].type_ref, f.typed, x, false) {
                    assert(stop_in_parameter(es, s as int, declarator, x, false));
                    lemma_follow_at(s0, s1, |y: int, e: bool| stop_in_parameter(es, s as int, declarator, y, e), x);
                } else {
                    assert(stop_in_parameters(es, ks, parameters, x, false));
                    lemma_follow_at(s1, *self, |y: int, e: bool| stop_in_parameters(es, ks, parameters, y, e), x);
                }
            }
        }
        Ok(f)
    }
}

proof fn lemma_marks_typed(s0: Parser, s1: Parser, i: int, t: Typed)
    requires
        marks_follow(s0, s1, |x: int, e: bool| stop_in_typed(s0.unit.entries@, i, t, x, e)),
    ensures
        marks_typed(s0, s1, i, t),
{
    let g = |x: int, e: bool| stop_in_typed(s0.unit.entries@, i, t, x, e);
    assert forall|x: int| #[trigger] stop_in_typed(s0.unit.entries@, i, t, x, false) implies 0 <= x
        < s1.in_progress@.len() && s1.in_progress@[x] by {
        lemma_follow_at(s0, s1, g, x);
    }
    assert forall|x: int| 0 <= x < s1.in_progress@.len() && #[trigger] s1.in_progress@[x] implies s0.in_progress@[x]
        || stop_in_typed(s0.unit.entries@, i, t, x, true) by {
        assert(g(x, true) == stop_in_typed(s0.unit.entries@, i, t, x, true));
    }
}

proof fn lemma_marks_ref(s0: Parser, s1: Parser, r: Attr<u64>, t: Typed)
    requires
        marks_follow(s0, s1, |x: int, e: bool| stop_in_ref(s0.unit.entries@, r, t, x, e)),
    ensures
        marks_ref(s0, s1, r, t),
{
    let g = |x: int, e: bool| stop_in_ref(s0.unit.entries@, r, t, x, e);
    assert forall|x: int| #[trigger] stop_in_ref(s0.unit.entries@, r, t, x, false) implies 0 <= x
        < s1.in_progress@.len() && s1.in_progress@[x] by {
        lemma_follow_at(s0, s1, g, x);
    }
    assert forall|x: int| 0 <= x < s1.in_progress@.len() && #[trigger] s1.in_progress@[x] implies s0.in_progress@[x]
        || stop_in_ref(s0.unit.entries@, r, t, x, true) by {
        assert(g(x, true) == stop_in_ref(s0.unit.entries@, r, t, x, true));
    }
}

proof fn lemma_marks_parameter(s0: Parser, s1: Parser, k: int, p: Parameter)
    requires
        marks_follow(s0, s1, |x: int, e: bool| stop_in_parameter(s0.unit.entries@, k, p, x, e)),
    ensures
        marks_parameter(s0, s1, k, p),
{
    let g = |x: int, e: bool| stop_in_parameter(s0.unit.entries@, k, p, x, e);
    assert forall|x: int| #[trigger] stop_in_parameter(s0.unit.entries@, k, p, x, false) implies 0 <= x
        < s1.in_progress@.len() && s1.in_progress@[x] by {
        lemma_follow_at(s0, s1, g, x);
    }
    assert forall|x: int| 0 <= x < s1.in_progress@.len() && #[trigger] s1.in_progress@[x] implies s0.in_progress@[x]
        || stop_in_parameter(s0.unit.entries@, k, p, x, true) by {
        assert(g(x, true) == stop_in_parameter(s0.unit.entries@, k, p, x, true));
    }
}

proof fn lemma_marks_parameters(s0: Parser, s1: Parser, ks: Seq<int>, ps: Vec<Parameter>)
    requires
        marks_follow(s0, s1, |x: int, e: bool| stop_in_parameters(s0.unit.entries@, ks, ps, x, e)),
    ensures
        marks_parameters(s0, s1, ks, ps),
{
    let g = |x: int, e: bool| stop_in_parameters(s0.unit.entries@, ks, ps, x, e);
    assert forall|x: int| #[trigger] stop_in_parameters(s0.unit.entries@, ks, ps, x, false) implies 0 <= x
        < s1.in_progress@.len() && s1.in_progress@[x] by {
        lemma_follow_at(s0, s1, g, x);
    }
    assert forall|x: int| 0 <= x < s1.in_progress@.len() && #[trigger] s1.in_progress@[x] implies s0.in_progress@[x]
        || stop_in_parameters(s0.unit.entries@, ks, ps, x, true) by {
        assert(g(x, true) == stop_in_parameters(s0.unit.entries@, ks, ps, x, true));
    }
}

proof fn lemma_marks_function(s0: Parser, s1: Parser, s: int, f: Function)
    requires
        marks_follow(s0, s1, |x: int, e: bool| stop_in_function(s0.unit.entries@, s, f, x, e)),
    ensures
        marks_function(s0, s1, s, f),
{
    let g = |x: int, e: bool| stop_in_function(s0.unit.entries@, s, f, x, e);
    assert forall|x: int| #[trigger] stop_in_function(s0.unit.entries@, s, f, x, false) implies 0 <= x
        < s1.in_progress@.len() && s1.in_progress@[x] by {
        lemma_follow_at(s0, s1, g, x);
    }
    assert forall|x: int| 0 <= x < s1.in_progress@.len() && #[trigger] s1.in_progress@[x] implies s0.in_progress@[x]
        || stop_in_function(s0.unit.entries@, s, f, x, true) by {
        assert(g(x, true) == stop_in_function(s0.unit.entries@, s, f, x, true));
    }
}

/// An entry at which `stops` stops is marked in `s1`.
proof fn lemma_follow_at(s0: Parser, s1: Parser, f: spec_fn(int, bool) -> bool, x: int)
    requires
        marks_follow(s0, s1, f),
        f(x, false),
    ensures
        0 <= x < s1.in_progress@.len() && s1.in_progress@[x],
{
}

/// What a resolution of `off` gives, where it refers to an entry.
pub open spec fn typed_result(s0: Parser, s1: Parser, off: Option<u64>, t: Typed) -> bool {
    match off {
        Some(o) => match locate(s0.unit.entries@, o) {
            Some(i) => resolved_typed(s0, s1, i, t),
            None => true,
        },
        None => true,
    }
}

/// Two descriptions of the same stops give the same account of the marks.
proof fn lemma_follow_same(s0: Parser, s1: Parser, f: spec_fn(int, bool) -> bool, g: spec_fn(int, bool) -> bool)
    requires
        marks_follow(s0, s1, f),
        forall|x: int, e: bool| #[trigger] f(x, e) == g(x, e),
    ensures
        marks_follow(s0, s1, g),
{
    assert forall|x: int| #[trigger] g(x, false) implies 0 <= x < s1.in_progress@.len() && s1.in_progress@[x] by {
        assert(f(x, false));
    }
    assert forall|x: int| 0 <= x < s1.in_progress@.len() && #[trigger] s1.in_progress@[x] implies s0.in_progress@[x] || g(x, true) by {
        if !s0.in_progress@[x] {
            assert(f(x, true));
        }
    }
}

proof fn lemma_keeps_trans(s0: Parser, s1: Parser, s2: Parser)
    requires
        keeps(s0, s1),
        keeps(s1, s2),
    ensures
        keeps(s0, s2),
{
    assert forall|j: int| 0 <= j < s0.cache@.len() && #[trigger] s0.cache@[j] is Some implies s2.cache@[j] == s0.cache@[j] by {
        assert(s1.cache@[j] is Some);
    }
    assert forall|anc: Set<int>| #[trigger] holds_for(s0, anc) implies holds_for(s2, anc) by {
        assert(holds_for(s1, anc));
    }
}

/// Entering the aggregate at `s`, reached from entry `idx`: marked from `s0`
/// to `s1`, its value resolved from `s1` to `s2`.
proof fn lemma_enter(s0: Parser, s1: Parser, s2: Parser, idx: int, s: int, t: Typed)
    requires
        s0.wf(),
        keeps(s0, s1),
        keeps(s1, s2),
        unmarked(s1.in_progress@) < unmarked(s0.in_progress@),
        s1.in_progress@ == s0.in_progress@.update(s, true),
        0 <= s < s0.in_progress@.len(),
        !s0.in_progress@[s],
        is_aggregate(s0.unit.entries@[s].tag),
        walk(s0.unit.entries@, idx).1 == ChainEnd::Stop(s),
        t.name@ == entry_type_name(s0.unit.entries@[s]),
        t.modifiers@ == kept_modifiers(s0.unit.entries@[s].tag, walk(s0.unit.entries@, idx).0),
        !(t.value is Circular),
        forall|anc: Set<int>| #[trigger] holds_for(s0, anc) ==> holds_for(s1, anc.insert(s)),
        forall|anc: Set<int>| #[trigger] holds_for(s1, anc) ==> conforms_value(s0.unit.entries@, s, t.value, anc),
        marks_follow(s1, s2, |x: int, e: bool| stop_in_value(s0.unit.entries@, s, t.value, x, e)),
    ensures
        resolved_typed(s0, s2, idx, t),
        keeps(s0, s2),
{
    let es = s0.unit.entries@;
    lemma_keeps_trans(s0, s1, s2);
    assert forall|anc: Set<int>| #[trigger] holds_for(s0, anc) implies conforms_typed(es, idx, t, anc) by {
        assert(holds_for(s1, anc.insert(s)));
        assert(!anc.contains(s));
    }
    assert forall|x: int| 0 <= x < s2.in_progress@.len() && #[trigger] s2.in_progress@[x] implies s0.in_progress@[x]
        || stop_in_typed(es, idx, t, x, true) by {
        if !s1.in_progress@[x] {
            assert(stop_in_value(es, s, t.value, x, true));
        }
    }
    assert forall|x: int| #[trigger] stop_in_typed(es, idx, t, x, false) implies 0 <= x < s2.in_progress@.len()
        && s2.in_progress@[x] by {
        if x != s {
            assert(stop_in_value(es, s, t.value, x, false));
            lemma_follow_at(s1, s2, |y: int, e: bool| stop_in_value(es, s, t.value, y, e), x);
        } else {
            assert(s1.in_progress@[s]);
            assert(s2.in_progress@[s]);
        }
    }
}

/// A walk that enters no aggregate leaves the state alone: its type is
/// `void`, a base or enumeration type, or a cycle cut short.
proof fn lemma_plain(s0: Parser, idx: int, t: Typed)
    requires
        s0.wf(),
        0 <= idx < s0.unit.entries@.len(),
        !enters(s0.unit.entries@, idx, s0.in_progress@),
        conforms_typed(s0.unit.entries@, idx, t, Set::empty()),
        walk(s0.unit.entries@, idx).1 matches ChainEnd::Stop(x) ==> (s0.in_progress@[x] <==> t.value is Circular),
    ensures
        resolved_typed(s0, s0, idx, t),
{
    let es = s0.unit.entries@;
    let w = walk(es, idx);
    lemma_walk_stop(es, idx, es.len() as nat);
    assert forall|anc: Set<int>| #[trigger] holds_for(s0, anc) implies conforms_typed(es, idx, t, anc) by {
        if let ChainEnd::Stop(x) = w.1 {
            if !s0.in_progress@[x] {
                assert(!anc.contains(x));
                assert(!is_aggregate(es[x].tag));
            }
        }
    }
    assert forall|x: int| #[trigger] stop_in_typed(es, idx, t, x, false) implies 0 <= x < s0.in_progress@.len()
        && s0.in_progress@[x] by {
        if let ChainEnd::Stop(y) = w.1 {
            if !s0.in_progress@[y] {
                assert(!is_aggregate(es[y].tag));
            }
        }
    }
}

/// Storing the completed type `c`, a copy of `t`, for entry `idx`.
proof fn lemma_store(s0: Parser, s1: Parser, s2: Parser, idx: int, t: Typed, c: Typed)
    requires
        s0.wf(),
        keeps(s0, s1),
        resolved_typed(s0, s1, idx, t),
        0 <= idx < s0.cache@.len(),
        s0.cache@[idx] is None,
        same_typed(c, t),
        s2.unit == s1.unit,
        s2.in_progress@ == s1.in_progress@,
        s2.cache@ == s1.cache@.update(idx, Some(c)),
    ensures
        keeps(s0, s2),
        resolved_typed(s0, s2, idx, t),
{
    let es = s0.unit.entries@;
    assert forall|anc: Set<int>| #[trigger] holds_for(s0, anc) implies holds_for(s2, anc) by {
        assert(holds_for(s1, anc));
        assert(conforms_typed(es, idx, t, anc));
        lemma_conforms_same(es, idx, c, t, anc);
        assert forall|j: int| 0 <= j < s2.cache@.len() && #[trigger] s2.cache@[j] is Some implies conforms_typed(
            es,
            j,
            s2.cache@[j]->Some_0,
            anc,
        ) by {
            if j != idx {
                assert(s2.cache@[j] == s1.cache@[j]);
            }
        }
    }
    assert(holds_for(s0, Set::empty()));
    assert forall|j: int, x: int|
        0 <= j < s2.cache@.len() && #[trigger] s2.cache@[j] is Some && #[trigger] stop_in_typed(
            es,
            j,
            s2.cache@[j]->Some_0,
            x,
            false,
        ) implies 0 <= x < s2.in_progress@.len() && s2.in_progress@[x] by {
        if j == idx {
            lemma_stop_same(es, idx, c, t, x, false);
            lemma_follow_at(s0, s1, |y: int, e: bool| stop_in_typed(es, idx, t, y, e), x);
        } else {
            assert(s2.cache@[j] == s1.cache@[j]);
        }
    }
    assert forall|j: int| 0 <= j < s0.cache@.len() && #[trigger] s0.cache@[j] is Some implies s2.cache@[j] == s0.cache@[j] by {
        assert(s1.cache@[j] == s0.cache@[j]);
    }
}

} // verus!
