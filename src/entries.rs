//! A compilation unit's debugging information entries as plain values, in
//! the pre-order in which the unit stores them.
use vstd::prelude::*;
use crate::model::Modifier;

verus! {

/// The classification of a DWARF tag that the resolver acts on.
#[derive(PartialEq, Eq, Structural, Clone, Copy, Debug)]
pub enum Tag {
    BaseType,
    Modifier(Modifier),
    Subroutine,
    TypeDef,
    Enum,
    Struct,
    Union,
    Array,
    Subrange,
    Subprogram,
    FormalParameter,
    Member,
    Other(u16),
}

pub const DW_TAG_ARRAY_TYPE: u16 = 0x01;
pub const DW_TAG_ENUMERATION_TYPE: u16 = 0x04;
pub const DW_TAG_FORMAL_PARAMETER: u16 = 0x05;
pub const DW_TAG_MEMBER: u16 = 0x0d;
pub const DW_TAG_POINTER_TYPE: u16 = 0x0f;
pub const DW_TAG_REFERENCE_TYPE: u16 = 0x10;
pub const DW_TAG_STRUCTURE_TYPE: u16 = 0x13;
pub const DW_TAG_SUBROUTINE_TYPE: u16 = 0x15;
pub const DW_TAG_TYPEDEF: u16 = 0x16;
pub const DW_TAG_UNION_TYPE: u16 = 0x17;
pub const DW_TAG_SUBRANGE_TYPE: u16 = 0x21;
pub const DW_TAG_BASE_TYPE: u16 = 0x24;
pub const DW_TAG_CONST_TYPE: u16 = 0x26;
pub const DW_TAG_SUBPROGRAM: u16 = 0x2e;
pub const DW_TAG_VOLATILE_TYPE: u16 = 0x35;
pub const DW_TAG_RESTRICT_TYPE: u16 = 0x37;

pub open spec fn spec_tag_of(code: u16) -> Tag {
    if code == DW_TAG_ARRAY_TYPE {
        Tag::Array
    } else if code == DW_TAG_ENUMERATION_TYPE {
        Tag::Enum
    } else if code == DW_TAG_FORMAL_PARAMETER {
        Tag::FormalParameter
    } else if code == DW_TAG_MEMBER {
        Tag::Member
    } else if code == DW_TAG_POINTER_TYPE {
        Tag::Modifier(Modifier::Pointer)
    } else if code == DW_TAG_REFERENCE_TYPE {
        Tag::Modifier(Modifier::Reference)
    } else if code == DW_TAG_STRUCTURE_TYPE {
        Tag::Struct
    } else if code == DW_TAG_SUBROUTINE_TYPE {
        Tag::Subroutine
    } else if code == DW_TAG_TYPEDEF {
        Tag::TypeDef
    } else if code == DW_TAG_UNION_TYPE {
        Tag::Union
    } else if code == DW_TAG_SUBRANGE_TYPE {
        Tag::Subrange
    } else if code == DW_TAG_BASE_TYPE {
        Tag::BaseType
    } else if code == DW_TAG_CONST_TYPE {
        Tag::Modifier(Modifier::Const)
    } else if code == DW_TAG_SUBPROGRAM {
        Tag::Subprogram
    } else if code == DW_TAG_VOLATILE_TYPE {
        Tag::Modifier(Modifier::Volatile)
    } else if code == DW_TAG_RESTRICT_TYPE {
        Tag::Modifier(Modifier::Restrict)
    } else {
        Tag::Other(code)
    }
}

/// Classifies a DWARF tag code.
pub fn tag_of(code: u16) -> (t: Tag)
    ensures
        t == spec_tag_of(code),
{
    if code == DW_TAG_ARRAY_TYPE {
        Tag::Array
    } else if code == DW_TAG_ENUMERATION_TYPE {
        Tag::Enum
    } else if code == DW_TAG_FORMAL_PARAMETER {
        Tag::FormalParameter
    } else if code == DW_TAG_MEMBER {
        Tag::Member
    } else if code == DW_TAG_POINTER_TYPE {
        Tag::Modifier(Modifier::Pointer)
    } else if code == DW_TAG_REFERENCE_TYPE {
        Tag::Modifier(Modifier::Reference)
    } else if code == DW_TAG_STRUCTURE_TYPE {
        Tag::Struct
    } else if code == DW_TAG_SUBROUTINE_TYPE {
        Tag::Subroutine
    } else if code == DW_TAG_TYPEDEF {
        Tag::TypeDef
    } else if code == DW_TAG_UNION_TYPE {
        Tag::Union
    } else if code == DW_TAG_SUBRANGE_TYPE {
        Tag::Subrange
    } else if code == DW_TAG_BASE_TYPE {
        Tag::BaseType
    } else if code == DW_TAG_CONST_TYPE {
        Tag::Modifier(Modifier::Const)
    } else if code == DW_TAG_SUBPROGRAM {
        Tag::Subprogram
    } else if code == DW_TAG_VOLATILE_TYPE {
        Tag::Modifier(Modifier::Volatile)
    } else if code == DW_TAG_RESTRICT_TYPE {
        Tag::Modifier(Modifier::Restrict)
    } else {
        Tag::Other(code)
    }
}

/// An attribute of an entry: missing, present with a value of the expected
/// form, or present in a form that cannot be read as that value.
#[derive(Debug)]
pub enum Attr<T> {
    Absent,
    Present(T),
    Malformed,
}

/// One debugging information entry, with the attributes the resolver reads.
#[derive(Debug)]
pub struct Entry {
    /// Offset of the entry within its unit.
    pub offset: u64,
    /// Depth in the unit's entry tree; the unit's root entry is at depth 0.
    pub depth: i64,
    pub tag: Tag,
    pub name: Attr<String>,
    /// The unit-local offset of the referenced type.
    pub type_ref: Attr<u64>,
    pub external: bool,
    pub prototyped: bool,
    pub count: Attr<u64>,
    pub lower_bound: Attr<u64>,
    pub upper_bound: Attr<u64>,
}

/// The entries of one compilation unit, in pre-order.
pub struct UnitEntries {
    pub entries: Vec<Entry>,
}

/// Offsets strictly increase along the pre-order, so each names one entry.
pub open spec fn offsets_increase(es: Seq<Entry>) -> bool {
    forall|i: int, j: int| 0 <= i < j < es.len() ==> es[i].offset < es[j].offset
}

/// The index of the entry at offset `o`, if there is one.
pub open spec fn locate(es: Seq<Entry>, o: u64) -> Option<int> {
    if exists|i: int| 0 <= i < es.len() && es[i].offset == o {
        Some(choose|i: int| 0 <= i < es.len() && es[i].offset == o)
    } else {
        None
    }
}

/// Entry `c` is a direct child of entry `p`.
pub open spec fn is_child(es: Seq<Entry>, p: int, c: int) -> bool {
    &&& 0 <= p < c < es.len()
    &&& es[c].depth == es[p].depth + 1
    &&& forall|k: int| p < k <= c ==> es[k].depth > es[p].depth
}

/// The indices of the direct children of `p` tagged `t`, in order, among
/// the entries from index `j` on.
pub open spec fn children_from(es: Seq<Entry>, p: int, t: Tag, j: int) -> Seq<int>
    decreases es.len() - j,
{
    if j <= p || j >= es.len() || es[j].depth <= es[p].depth {
        seq![]
    } else if es[j].depth == es[p].depth + 1 && es[j].tag == t {
        seq![j].add(children_from(es, p, t, j + 1))
    } else {
        children_from(es, p, t, j + 1)
    }
}

/// The indices of the direct children of `p` tagged `t`, in order.
pub open spec fn children(es: Seq<Entry>, p: int, t: Tag) -> Seq<int> {
    children_from(es, p, t, p + 1)
}

/// Each index that `children_from` lists is a direct child of `p` tagged `t`.
pub proof fn lemma_children_from(es: Seq<Entry>, p: int, t: Tag, j: int)
    requires
        0 <= p < es.len(),
        p < j,
        forall|k: int| p < k < j ==> es[k].depth > es[p].depth,
    ensures
        forall|m: int| 0 <= m < children_from(es, p, t, j).len() ==> {
            let c = #[trigger] children_from(es, p, t, j)[m];
            j <= c < es.len() && is_child(es, p, c) && es[c].tag == t
        },
    decreases es.len() - j,
{
    if j <= p || j >= es.len() || es[j].depth <= es[p].depth {
    } else {
        lemma_children_from(es, p, t, j + 1);
    }
}

/// Each index that `children` lists is a direct child of `p` tagged `t`.
pub proof fn lemma_children(es: Seq<Entry>, p: int, t: Tag)
    requires
        0 <= p < es.len(),
    ensures
        forall|m: int| 0 <= m < children(es, p, t).len() ==> {
            let c = #[trigger] children(es, p, t)[m];
            p < c < es.len() && is_child(es, p, c) && es[c].tag == t
        },
{
    lemma_children_from(es, p, t, p + 1);
}

impl UnitEntries {
    pub open spec fn wf(&self) -> bool {
        offsets_increase(self.entries@)
    }

    /// Wraps entries whose offsets strictly increase; `None` otherwise.
    pub fn new(entries: Vec<Entry>) -> (r: Option<UnitEntries>)
        ensures
            r matches Some(u) ==> u.entries@ == entries@ && u.wf(),
            r is None <==> !offsets_increase(entries@),
    {
        let n = entries.len();
        let mut i: usize = 1;
        while i < n
            invariant
                n == entries@.len(),
                1 <= i,
                forall|a: int, b: int| 0 <= a < b < i && b < n ==> entries@[a].offset < entries@[b].offset,
            decreases n - i,
        {
            if entries[i - 1].offset >= entries[i].offset {
                return None;
            }
            proof {
                assert forall|a: int, b: int| 0 <= a < b < i + 1 && b < n implies entries@[a].offset
                    < entries@[b].offset by {
                    if b == i && a < i - 1 {
                        assert(entries@[a].offset < entries@[i - 1].offset);
                    }
                }
            }
            i = i + 1;
        }
        Some(UnitEntries { entries })
    }

    /// The index of the entry at offset `o`.
    pub fn find(&self, o: u64) -> (r: Option<usize>)
        requires
            self.wf(),
        ensures
            r is Some ==> locate(self.entries@, o) == Some(r->0 as int),
            r is None ==> locate(self.entries@, o) is None,
    {
        let mut lo: usize = 0;
        let mut hi: usize = self.entries.len();
        while lo < hi
            invariant
                0 <= lo <= hi <= self.entries@.len(),
                offsets_increase(self.entries@),
                forall|k: int| 0 <= k < lo ==> self.entries@[k].offset < o,
                forall|k: int| hi <= k < self.entries@.len() ==> self.entries@[k].offset > o,
            decreases hi - lo,
        {
            let mid = lo + (hi - lo) / 2;
            let m = self.entries[mid].offset;
            if m == o {
                proof {
                    assert(self.entries@[mid as int].offset == o);
                    assert forall|k: int| 0 <= k < self.entries@.len() && self.entries@[k].offset == o implies k
                        == mid by {
                        if k < mid {
                            assert(self.entries@[k].offset < self.entries@[mid as int].offset);
                        }
                        if k > mid {
                            assert(self.entries@[mid as int].offset < self.entries@[k].offset);
                        }
                    }
                    let c = choose|i: int| 0 <= i < self.entries@.len() && self.entries@[i].offset == o;
                    assert(c == mid);
                    assert(locate(self.entries@, o) == Some(mid as int));
                }
                return Some(mid);
            } else if m < o {
                proof {
                    assert forall|k: int| 0 <= k < mid + 1 implies self.entries@[k].offset < o by {
                        if k < mid {
                            assert(self.entries@[k].offset < self.entries@[mid as int].offset);
                        }
                    }
                }
                lo = mid + 1;
            } else {
                proof {
                    assert forall|k: int| mid <= k < self.entries@.len() implies self.entries@[k].offset > o by {
                        if k > mid {
                            assert(self.entries@[mid as int].offset < self.entries@[k].offset);
                        }
                    }
                }
                hi = mid;
            }
        }
        None
    }

    /// The indices of the direct children of entry `p` tagged `t`, in order.
    pub fn children(&self, p: usize, t: Tag) -> (r: Vec<usize>)
        requires
            p < self.entries@.len(),
        ensures
            r@.map_values(|i: usize| i as int) == children(self.entries@, p as int, t),
    {
        let n = self.entries.len();
        let d = self.entries[p].depth;
        let mut r: Vec<usize> = Vec::new();
        let mut j: usize = p + 1;
        while j < n && self.entries[j].depth > d
            invariant
                n == self.entries@.len(),
                p < j <= n,
                d == self.entries@[p as int].depth,
                r@.map_values(|i: usize| i as int) + children_from(self.entries@, p as int, t, j as int)
                    == children(self.entries@, p as int, t),
            decreases n - j,
        {
            if self.entries[j].depth - 1 == d && self.entries[j].tag == t {
                r.push(j);
            }
            j = j + 1;
        }
        assert(children_from(self.entries@, p as int, t, j as int) == Seq::<int>::empty());
        assert(r@.map_values(|i: usize| i as int) + Seq::<int>::empty() == r@.map_values(|i: usize| i as int));
        r
    }
}

} // verus!
