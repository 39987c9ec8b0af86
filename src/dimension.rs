//! Array dimensionality: the product of the extents of an array's subranges.
use vstd::prelude::*;
use crate::entries::{Attr, Entry, Tag, UnitEntries, children, lemma_children};
use crate::model::ParseError;

verus! {

/// The number of elements one subrange gives: its count; else its upper
/// bound less its lower bound (0 when absent) plus one; `None` where it has
/// neither a count nor an upper bound.
pub open spec fn extent(e: Entry) -> Result<Option<int>, ParseError> {
    match e.count {
        Attr::Present(c) => Ok(Some(c as int)),
        Attr::Malformed => Err(ParseError::MalformedAttribute(e.offset)),
        Attr::Absent => match e.lower_bound {
            Attr::Malformed => Err(ParseError::MalformedAttribute(e.offset)),
            lb => {
                let l: int = match lb {
                    Attr::Present(x) => x as int,
                    _ => 0,
                };
                match e.upper_bound {
                    Attr::Present(u) => if (u as int) + 1 < l {
                        Err(ParseError::BadBounds(e.offset))
                    } else if (u as int) + 1 - l > u64::MAX {
                        Err(ParseError::DimensionOverflow(e.offset))
                    } else {
                        Ok(Some((u as int) + 1 - l))
                    },
                    Attr::Absent => Ok(None),
                    Attr::Malformed => Err(ParseError::MalformedAttribute(e.offset)),
                }
            },
        },
    }
}

/// The first error among `xs`, in order.
pub open spec fn first_error(xs: Seq<Result<Option<int>, ParseError>>) -> Option<ParseError>
    decreases xs.len(),
{
    if xs.len() == 0 {
        None
    } else {
        match first_error(xs.drop_last()) {
            Some(e) => Some(e),
            None => match xs.last() {
                Err(e) => Some(e),
                Ok(_) => None,
            },
        }
    }
}

pub open spec fn product(xs: Seq<int>) -> int
    decreases xs.len(),
{
    if xs.len() == 0 {
        1
    } else {
        product(xs.drop_last()) * xs.last()
    }
}

pub open spec fn known(r: Result<Option<int>, ParseError>) -> int {
    match r {
        Ok(Some(x)) => x,
        _ => 0,
    }
}

/// The extents of the subranges of the array at index `s`, in order.
pub open spec fn extents(es: Seq<Entry>, s: int) -> Seq<Result<Option<int>, ParseError>> {
    children(es, s, Tag::Subrange).map_values(|k: int| extent(es[k]))
}

/// The dimension of the array at index `s`: the first error among its
/// subranges; else `None` if one of them is unknown; else the product of
/// their extents, which must fit in a `u64`.
pub open spec fn dimension(es: Seq<Entry>, s: int) -> Result<Option<u64>, ParseError> {
    let xs = extents(es, s);
    match first_error(xs) {
        Some(e) => Err(e),
        None => if exists|j: int| 0 <= j < xs.len() && #[trigger] xs[j] == Ok::<Option<int>, ParseError>(None) {
            Ok(None)
        } else {
            let p = product(xs.map_values(|r: Result<Option<int>, ParseError>| known(r)));
            if p > u64::MAX {
                Err(ParseError::DimensionOverflow(es[s].offset))
            } else {
                Ok(Some(p as u64))
            }
        },
    }
}

proof fn lemma_product_nonneg(xs: Seq<int>)
    requires
        forall|i: int| 0 <= i < xs.len() ==> xs[i] >= 0,
    ensures
        product(xs) >= 0,
    decreases xs.len(),
{
    if xs.len() > 0 {
        lemma_product_nonneg(xs.drop_last());
        let a = product(xs.drop_last());
        let b = xs.last();
        assert(a * b >= 0) by (nonlinear_arith)
            requires a >= 0, b >= 0;
    }
}

proof fn lemma_product_zero(xs: Seq<int>, j: int)
    requires
        0 <= j < xs.len(),
        xs[j] == 0,
    ensures
        product(xs) == 0,
    decreases xs.len(),
{
    if j < xs.len() - 1 {
        lemma_product_zero(xs.drop_last(), j);
    }
}

/// Prefix products never exceed the whole product when no factor is below one.
proof fn lemma_prefix_product_le(xs: Seq<int>, k: int)
    requires
        0 <= k <= xs.len(),
        forall|i: int| 0 <= i < xs.len() ==> xs[i] >= 1,
    ensures
        product(xs.take(k)) <= product(xs),
    decreases xs.len(),
{
    if k < xs.len() {
        let ys = xs.drop_last();
        assert(ys.take(k) =~= xs.take(k));
        lemma_prefix_product_le(ys, k);
        lemma_product_nonneg(ys);
        let a = product(ys);
        let b = xs.last();
        assert(a <= a * b) by (nonlinear_arith)
            requires a >= 0, b >= 1;
    } else {
        assert(xs.take(k) =~= xs);
    }
}

/// The extent of one subrange entry.
pub fn subrange_extent(e: &Entry) -> (r: Result<Option<u64>, ParseError>)
    ensures
        match r {
            Ok(Some(x)) => extent(*e) == Ok::<Option<int>, ParseError>(Some(x as int)),
            Ok(None) => extent(*e) == Ok::<Option<int>, ParseError>(None),
            Err(err) => extent(*e) == Err::<Option<int>, ParseError>(err),
        },
{
    match &e.count {
        Attr::Present(c) => return Ok(Some(*c)),
        Attr::Malformed => return Err(ParseError::MalformedAttribute(e.offset)),
        Attr::Absent => {},
    }
    let l: u64 = match &e.lower_bound {
        Attr::Malformed => return Err(ParseError::MalformedAttribute(e.offset)),
        Attr::Present(x) => *x,
        Attr::Absent => 0,
    };
    match &e.upper_bound {
        Attr::Present(u) => {
            if *u < l {
                if *u + 1 < l {
                    Err(ParseError::BadBounds(e.offset))
                } else {
                    Ok(Some(0))
                }
            } else if *u - l == u64::MAX {
                Err(ParseError::DimensionOverflow(e.offset))
            } else {
                Ok(Some(*u - l + 1))
            }
        },
        Attr::Absent => Ok(None),
        Attr::Malformed => Err(ParseError::MalformedAttribute(e.offset)),
    }
}

/// The dimension of the array entry at index `s`.
pub fn parse_dimensionality(unit: &UnitEntries, s: usize) -> (r: Result<Option<u64>, ParseError>)
    requires
        s < unit.entries@.len(),
    ensures
        r == dimension(unit.entries@, s as int),
{
    let ghost es = unit.entries@;
    let kids = unit.children(s, Tag::Subrange);
    let ghost ks = children(es, s as int, Tag::Subrange);
    let ghost xs = extents(es, s as int);
    proof {
        lemma_children(es, s as int, Tag::Subrange);
        assert(kids@.map_values(|i: usize| i as int).len() == kids@.len());
    }
    let mut unknown = false;
    let mut vals: Vec<u64> = Vec::new();
    let mut k: usize = 0;
    while k < kids.len()
        invariant
            k <= kids@.len() == ks.len() == xs.len(),
            kids@.map_values(|i: usize| i as int) == ks,
            xs == extents(es, s as int),
            ks == children(es, s as int, Tag::Subrange),
            es == unit.entries@,
            s < es.len(),
            forall|j: int| 0 <= j < ks.len() ==> 0 <= #[trigger] ks[j] < es.len(),
            first_error(xs.take(k as int)) is None,
            unknown <==> exists|j: int| 0 <= j < k && #[trigger] xs[j] == Ok::<Option<int>, ParseError>(None),
            !unknown ==> vals@.map_values(|v: u64| v as int) == xs.take(k as int).map_values(
                |r: Result<Option<int>, ParseError>| known(r),
            ),
        decreases kids@.len() - k,
    {
        assert(ks[k as int] == kids@.map_values(|i: usize| i as int)[k as int]);
        let ghost old_vals = vals;
        let e = &unit.entries[kids[k]];
        let x = subrange_extent(e);
        assert(xs[k as int] == extent(es[ks[k as int]]));
        assert(xs.take(k + 1).drop_last() =~= xs.take(k as int));
        match x {
            Err(err) => {
                assert(first_error(xs.take(k + 1)) == Some(err));
                proof { lemma_first_error_prefix(xs, k + 1); }
                return Err(err);
            },
            Ok(None) => {
                unknown = true;
            },
            Ok(Some(v)) => {
                vals.push(v);
                proof {
                    if !unknown {
                        assert(vals@.map_values(|v: u64| v as int) =~= xs.take(k + 1).map_values(
                            |r: Result<Option<int>, ParseError>| known(r),
                        )) by {
                            assert(vals@ == old_vals@.push(v));
                            assert(xs[k as int] == Ok::<Option<int>, ParseError>(Some(v as int)));
                            assert(vals@.map_values(|v: u64| v as int) =~= old_vals@.map_values(
                                |v: u64| v as int,
                            ).push(v as int));
                            assert(xs.take(k + 1).map_values(
                                |r: Result<Option<int>, ParseError>| known(r),
                            ) =~= xs.take(k as int).map_values(
                                |r: Result<Option<int>, ParseError>| known(r),
                            ).push(v as int));
                        }
                    }
                }
            },
        }
        k = k + 1;
    }
    assert(xs.take(k as int) =~= xs);
    if unknown {
        return Ok(None);
    }
    let ghost ps = xs.map_values(|r: Result<Option<int>, ParseError>| known(r));
    assert(vals@.map_values(|v: u64| v as int) == ps);
    let mut i: usize = 0;
    while i < vals.len()
        invariant
            i <= vals@.len() == ps.len(),
            vals@.map_values(|v: u64| v as int) == ps,
            forall|j: int| 0 <= j < i ==> ps[j] >= 1,
            es == unit.entries@,
            s < es.len(),
            first_error(xs) is None,
            !(exists|j: int| 0 <= j < xs.len() && #[trigger] xs[j] == Ok::<Option<int>, ParseError>(None)),
            ps == xs.map_values(|r: Result<Option<int>, ParseError>| known(r)),
            xs == extents(es, s as int),
        decreases vals@.len() - i,
    {
        assert(ps[i as int] == vals@[i as int] as int);
        if vals[i] == 0 {
            proof {
                lemma_product_zero(ps, i as int);
                assert(dimension(es, s as int) == Ok::<Option<u64>, ParseError>(Some(0)));
            }
            return Ok(Some(0));
        }
        i = i + 1;
    }
    let mut acc: u64 = 1;
    let mut i: usize = 0;
    while i < vals.len()
        invariant
            i <= vals@.len() == ps.len(),
            vals@.map_values(|v: u64| v as int) == ps,
            forall|j: int| 0 <= j < ps.len() ==> ps[j] >= 1,
            acc as int == product(ps.take(i as int)),
            first_error(xs) is None,
            !(exists|j: int| 0 <= j < xs.len() && #[trigger] xs[j] == Ok::<Option<int>, ParseError>(None)),
            ps == xs.map_values(|r: Result<Option<int>, ParseError>| known(r)),
            xs == extents(es, s as int),
            es == unit.entries@,
            s < es.len(),
        decreases vals@.len() - i,
    {
        assert(ps[i as int] == vals@[i as int] as int);
        assert(ps.take(i + 1).drop_last() =~= ps.take(i as int));
        match acc.checked_mul(vals[i]) {
            Some(m) => {
                acc = m;
            },
            None => {
                proof { lemma_prefix_product_le(ps, i + 1); }
                return Err(ParseError::DimensionOverflow(unit.entries[s].offset));
            },
        }
        i = i + 1;
    }
    assert(ps.take(i as int) =~= ps);
    Ok(Some(acc))
}

proof fn lemma_first_error_prefix(xs: Seq<Result<Option<int>, ParseError>>, k: int)
    requires
        0 <= k <= xs.len(),
        first_error(xs.take(k)) is Some,
    ensures
        first_error(xs) == first_error(xs.take(k)),
    decreases xs.len(),
{
    if k < xs.len() {
        let ys = xs.drop_last();
        assert(ys.take(k) =~= xs.take(k));
        lemma_first_error_prefix(ys, k);
    } else {
        assert(xs.take(k) =~= xs);
    }
}

} // verus!
