//! The unit walker: selects the exported, prototyped subprograms of a unit
//! and adds their signatures to the symbol table.
use vstd::prelude::*;
use crate::conform::{conforms_function, stop_in_function};
use crate::entries::{Entry, Tag, UnitEntries, offsets_increase};
use crate::model::{Function, ParseError};
use crate::resolver::{Parser, holds_for, sound};
use crate::symbols::{Symbols, last_with_key, lookup};

verus! {

/// A subprogram that carries both an `external` and a `prototyped`
/// attribute, whatever their values.
pub open spec fn selected(e: Entry) -> bool {
    e.tag == Tag::Subprogram && e.external && e.prototyped
}

/// The indices of the selected entries among the first `n`, in pre-order.
pub open spec fn selection(es: Seq<Entry>, n: int) -> Seq<int>
    decreases n,
{
    if n <= 0 {
        seq![]
    } else if selected(es[n - 1]) {
        selection(es, n - 1).push(n - 1)
    } else {
        selection(es, n - 1)
    }
}

/// Every selected entry has a name.
pub open spec fn selected_named(es: Seq<Entry>) -> bool {
    forall|i: int| 0 <= i < es.len() && selected(#[trigger] es[i]) ==> es[i].name is Present
}

/// The signatures of the unit's selected subprograms, in pre-order.
pub open spec fn signatures_fit(es: Seq<Entry>, fs: Seq<Function>) -> bool {
    let sel = selection(es, es.len() as int);
    &&& fs.len() == sel.len()
    &&& forall|m: int|
        0 <= m < fs.len() ==> conforms_function(es, sel[m], #[trigger] fs[m], Set::empty()) && fs[m].name is Some
}

/// Each cycle cut short in the signatures stands for an aggregate entry
/// that one of them entered.
pub open spec fn cuts_entered(es: Seq<Entry>, fs: Seq<Function>) -> bool {
    let sel = selection(es, es.len() as int);
    forall|m: int, x: int|
        0 <= m < fs.len() && #[trigger] stop_in_function(es, sel[m], fs[m], x, false) ==> exists|k: int|
            0 <= k < fs.len() && #[trigger] stop_in_function(es, sel[k], fs[k], x, true)
}

/// The signatures of the unit's selected subprograms, in pre-order, each
/// cut justified by an entry that one of them entered.
pub open spec fn signatures_of(es: Seq<Entry>, fs: Seq<Function>) -> bool {
    signatures_fit(es, fs) && cuts_entered(es, fs)
}

proof fn lemma_selection_bounds(es: Seq<Entry>, n: int)
    requires
        0 <= n <= es.len(),
    ensures
        forall|m: int| 0 <= m < selection(es, n).len() ==> 0 <= #[trigger] selection(es, n)[m] < n,
    decreases n,
{
    if n > 0 {
        lemma_selection_bounds(es, n - 1);
        let prev = selection(es, n - 1);
        if selected(es[n - 1]) {
            assert forall|m: int| 0 <= m < selection(es, n).len() implies 0 <= #[trigger] selection(
                es,
                n,
            )[m] < n by {
                if m < prev.len() {
                    assert(selection(es, n)[m] == prev[m]);
                }
            }
        }
    }
}

proof fn lemma_selection_iff(es: Seq<Entry>, n: int, i: int)
    requires
        0 <= n <= es.len(),
        0 <= i < es.len(),
    ensures
        selection(es, n).contains(i) <==> i < n && selected(es[i]),
    decreases n,
{
    if n > 0 {
        lemma_selection_iff(es, n - 1, i);
        let prev = selection(es, n - 1);
        if selected(es[n - 1]) {
            let cur = prev.push(n - 1);
            assert(selection(es, n) == cur);
            if cur.contains(i) && i != n - 1 {
                let m = choose|m: int| 0 <= m < cur.len() && #[trigger] cur[m] == i;
                assert(prev[m] == i);
            }
            if prev.contains(i) {
                let m = choose|m: int| 0 <= m < prev.len() && #[trigger] prev[m] == i;
                assert(cur[m] == i);
            }
            if i == n - 1 {
                assert(cur[prev.len() as int] == i);
            }
        }
    }
}

/// The walker takes a subprogram only where it carries both `external` and
/// `prototyped`: one missing either is left out, whatever the other says,
/// and every subprogram with both is taken.
pub proof fn lemma_selection_filter(es: Seq<Entry>, i: int)
    requires
        0 <= i < es.len(),
    ensures
        selection(es, es.len() as int).contains(i) <==> (es[i].tag == Tag::Subprogram
            && es[i].external && es[i].prototyped),
        !es[i].prototyped ==> !selection(es, es.len() as int).contains(i),
        !es[i].external ==> !selection(es, es.len() as int).contains(i),
{
    lemma_selection_iff(es, es.len() as int, i);
}

/// From `p0` to `p1` the marks grew only at entries that the signatures
/// `fs` entered, and each entry at which they stop is marked in `p1`.
pub open spec fn marks_account(p0: Parser, p1: Parser, fs: Seq<Function>) -> bool {
    let es = p0.unit.entries@;
    let sel = selection(es, es.len() as int);
    &&& forall|x: int|
        0 <= x < p1.in_progress@.len() && #[trigger] p1.in_progress@[x] ==> p0.in_progress@[x] || exists|k: int|
            0 <= k < fs.len() && #[trigger] stop_in_function(es, sel[k], fs[k], x, true)
    &&& forall|m: int, x: int|
        0 <= m < fs.len() && #[trigger] stop_in_function(es, sel[m], fs[m], x, false) ==> 0 <= x
            < p1.in_progress@.len() && p1.in_progress@[x]
}

/// Builds the signature of each selected subprogram of the parser's unit,
/// in pre-order.
pub fn collect_functions(parser: &mut Parser) -> (r: Result<Vec<Function>, ParseError>)
    requires
        old(parser).wf(),
    ensures
        final(parser).wf(),
        final(parser).unit == old(parser).unit,
        r matches Ok(fs) ==> signatures_fit(old(parser).unit.entries@, fs@),
        r matches Ok(fs) ==> marks_account(*old(parser), *final(parser), fs@),
        r matches Err(ParseError::MissingName(o)) ==> !selected_named(old(parser).unit.entries@)
            || !sound(old(parser).unit.entries@),
        sound(old(parser).unit.entries@) && selected_named(old(parser).unit.entries@) ==> r is Ok,
{
    let ghost es = parser.unit.entries@;
    let n = parser.unit.entries.len();
    let mut fs: Vec<Function> = Vec::new();
    let mut i: usize = 0;
    while i < n
        invariant
            parser.wf(),
            parser.unit == old(parser).unit,
            es == parser.unit.entries@,
            n == es.len(),
            i <= n,
            fs@.len() == selection(es, i as int).len(),
            forall|m: int|
                0 <= m < fs@.len() ==> conforms_function(es, selection(es, i as int)[m], #[trigger] fs@[m], Set::empty())
                    && fs@[m].name is Some,
            forall|x: int|
                0 <= x < parser.in_progress@.len() && #[trigger] parser.in_progress@[x] ==> old(
                    parser,
                ).in_progress@[x] || exists|k: int|
                    0 <= k < fs@.len() && #[trigger] stop_in_function(es, selection(es, i as int)[k], fs@[k], x, true),
            forall|m: int, x: int|
                0 <= m < fs@.len() && #[trigger] stop_in_function(es, selection(es, i as int)[m], fs@[m], x, false)
                    ==> 0 <= x < parser.in_progress@.len() && parser.in_progress@[x],
        decreases n - i,
    {
        let e = &parser.unit.entries[i];
        if e.tag == Tag::Subprogram && e.external && e.prototyped {
            let ghost si = *parser;
            let f = match parser.parse_subprogram(i) {
                Ok(f) => f,
                Err(err) => return Err(err),
            };
            if f.name.is_none() {
                return Err(ParseError::MissingName(parser.unit.entries[i].offset));
            }
            let ghost old_fs = fs@;
            fs.push(f);
            proof {
                assert(holds_for(si, Set::empty()));
                let sel = selection(es, i as int);
                let sel1 = selection(es, i + 1);
                assert(sel1 == sel.push(i as int));
                assert forall|m: int| 0 <= m < old_fs.len() implies fs@[m] == old_fs[m] && sel1[m] == sel[m] by {}
                assert forall|x: int|
                    0 <= x < parser.in_progress@.len() && #[trigger] parser.in_progress@[x] implies old(
                        parser,
                    ).in_progress@[x] || exists|k: int|
                        0 <= k < fs@.len() && #[trigger] stop_in_function(es, sel1[k], fs@[k], x, true) by {
                    if !si.in_progress@[x] {
                        assert(stop_in_function(es, sel1[old_fs.len() as int], fs@[old_fs.len() as int], x, true));
                    } else if !old(parser).in_progress@[x] {
                        let k = choose|k: int| 0 <= k < old_fs.len() && #[trigger] stop_in_function(es, sel[k], old_fs[k], x, true);
                        assert(stop_in_function(es, sel1[k], fs@[k], x, true));
                    }
                }
                assert forall|m: int, x: int|
                    0 <= m < fs@.len() && #[trigger] stop_in_function(es, sel1[m], fs@[m], x, false) implies 0 <= x
                        < parser.in_progress@.len() && parser.in_progress@[x] by {
                    if m < old_fs.len() {
                        assert(stop_in_function(es, sel[m], old_fs[m], x, false));
                        assert(si.in_progress@[x]);
                    }
                }
            }
        }
        proof {
            lemma_selection_bounds(es, i as int);
        }
        i = i + 1;
    }
    assert(selection(es, n as int) == selection(es, i as int));
    proof {
        let sel = selection(es, es.len() as int);
        assert forall|x: int|
            0 <= x < parser.in_progress@.len() && #[trigger] parser.in_progress@[x] implies old(
                parser,
            ).in_progress@[x] || exists|k: int|
                0 <= k < fs@.len() && #[trigger] stop_in_function(es, sel[k], fs@[k], x, true) by {
            if !old(parser).in_progress@[x] {
                let k = choose|k: int|
                    0 <= k < fs@.len() && #[trigger] stop_in_function(es, selection(es, i as int)[k], fs@[k], x, true);
                assert(stop_in_function(es, sel[k], fs@[k], x, true));
            }
        }
        assert(es == old(parser).unit.entries@);
        assert(marks_account(*old(parser), *parser, fs@));
    }
    Ok(fs)
}

/// Adds the signatures of the unit's selected subprograms to `symbols`. On
/// an error the table is left as it was.
pub fn parse_unit(unit: UnitEntries, symbols: &mut Symbols) -> (r: Result<(), ParseError>)
    requires
        unit.wf(),
        old(symbols).wf(),
    ensures
        final(symbols).wf(),
        r is Err ==> final(symbols).functions@ == old(symbols).functions@,
        r is Ok ==> exists|fs: Seq<Function>|
            {
                &&& signatures_of(unit.entries@, fs)
                &&& forall|k: Seq<char>|
                    #[trigger] lookup(final(symbols).functions@, k) == match last_with_key(fs, k) {
                        Some(g) => Some(g),
                        None => lookup(old(symbols).functions@, k),
                    }
            },
        sound(unit.entries@) && selected_named(unit.entries@) ==> r is Ok,
{
    let mut parser = Parser::new(unit);
    let ghost p0 = parser;
    let fs = match collect_functions(&mut parser) {
        Ok(fs) => fs,
        Err(e) => return Err(e),
    };
    let ghost all = fs@;
    proof {
        let es = p0.unit.entries@;
        let sel = selection(es, es.len() as int);
        assert forall|m: int, x: int|
            0 <= m < all.len() && #[trigger] stop_in_function(es, sel[m], all[m], x, false) implies exists|k: int|
                0 <= k < all.len() && #[trigger] stop_in_function(es, sel[k], all[k], x, true) by {
            assert(parser.in_progress@[x]);
            assert(!p0.in_progress@[x]);
        }
        assert(cuts_entered(es, all));
    }
    symbols.extend(fs);
    assert(signatures_of(parser.unit.entries@, all));
    Ok(())
}

/// The table after adding each unit's signatures in turn: for each name,
/// the last signature of that name.
pub open spec fn last_in_units(fss: Seq<Seq<Function>>, k: Seq<char>) -> Option<Function>
    decreases fss.len(),
{
    if fss.len() == 0 {
        None
    } else {
        match last_with_key(fss.last(), k) {
            Some(g) => Some(g),
            None => last_in_units(fss.drop_last(), k),
        }
    }
}

/// `fss` are the signatures of each unit, and `table` holds, for each name,
/// the last of them with that name.
pub open spec fn merged(units: Seq<Vec<Entry>>, fss: Seq<Seq<Function>>, table: Seq<Function>) -> bool {
    &&& fss.len() == units.len()
    &&& forall|u: int| 0 <= u < fss.len() ==> signatures_of(units[u]@, #[trigger] fss[u])
    &&& forall|k: Seq<char>| #[trigger] lookup(table, k) == last_in_units(fss, k)
}

/// The signatures of every unit's selected subprograms, merged into one
/// table; where names repeat, the last one stays. Any error aborts the
/// whole parse.
pub fn parse(units: Vec<Vec<Entry>>) -> (r: Result<Symbols, ParseError>)
    ensures
        units@.len() == 0 ==> (r matches Ok(s) && s.functions@.len() == 0),
        r matches Ok(s) ==> s.wf() && exists|fss: Seq<Seq<Function>>|
            #[trigger] merged(units@, fss, s.functions@),
        (exists|u: int| 0 <= u < units@.len() && !offsets_increase(#[trigger] units@[u]@)) ==> r is Err,
        (forall|u: int|
            0 <= u < units@.len() ==> offsets_increase(#[trigger] units@[u]@) && sound(units@[u]@)
                && selected_named(units@[u]@)) ==> r is Ok,
{
    let ghost all = units@;
    let mut rest = units;
    let mut symbols = Symbols::new();
    let ghost mut fss: Seq<Seq<Function>> = seq![];
    let n = rest.len();
    let mut i: usize = 0;
    assert(all.skip(0) =~= all);
    while i < n
        invariant
            n == all.len(),
            i <= n,
            rest@ == all.skip(i as int),
            symbols.wf(),
            fss.len() == i,
            forall|u: int| 0 <= u < i ==> signatures_of(all[u]@, #[trigger] fss[u]),
            forall|k: Seq<char>| #[trigger] lookup(symbols.functions@, k) == last_in_units(fss, k),
            forall|u: int| 0 <= u < i ==> offsets_increase(#[trigger] all[u]@),
            i == 0 ==> symbols.functions@.len() == 0,
            all == units@,
        decreases n - i,
    {
        let entries = rest.remove(0);
        assert(entries == all[i as int]);
        assert(rest@ =~= all.skip(i + 1));
        let unit = match UnitEntries::new(entries) {
            Some(u) => u,
            None => {
                assert(!offsets_increase(units@[i as int]@));
                return Err(ParseError::EntryOrder);
            },
        };
        let ghost before = symbols.functions@;
        match parse_unit(unit, &mut symbols) {
            Ok(()) => {},
            Err(e) => {
                assert(!(offsets_increase(units@[i as int]@) && sound(all[i as int]@) && selected_named(
                    all[i as int]@,
                )));
                return Err(e);
            },
        }
        proof {
            let fs = choose|fs: Seq<Function>|
                {
                    &&& signatures_of(all[i as int]@, fs)
                    &&& forall|k: Seq<char>|
                        #[trigger] lookup(symbols.functions@, k) == match last_with_key(fs, k) {
                            Some(g) => Some(g),
                            None => lookup(before, k),
                        }
                };
            let next = fss.push(fs);
            assert(next.drop_last() =~= fss);
            assert forall|k: Seq<char>| #[trigger] lookup(symbols.functions@, k) == last_in_units(next, k) by {
            }
            fss = next;
        }
        i = i + 1;
    }
    assert(all.take(i as int) =~= all);
    assert(merged(all, fss, symbols.functions@));
    assert(exists|f: Seq<Seq<Function>>| #[trigger] merged(units@, f, symbols.functions@));
    Ok(symbols)
}

} // verus!
