//! Signatures of the exported, prototyped functions described by the DWARF
//! debugging information of a binary, rendered as C declarations.
//!
//! A unit's entries come in as plain values (`Entry`); the resolver turns
//! type references into `Typed` values, memoized per unit and cut short with
//! `Circular` on cycles; the walker collects the selected subprograms into a
//! name-ordered `Symbols` table; the formatter renders them as C text.
pub mod model;
pub mod entries;
pub mod dimension;
pub mod conform;
pub mod same;
pub mod resolver;
pub mod symbols;
pub mod walker;
pub mod render;
pub mod dwarf;

pub use model::{Function, Member, Modifier, Parameter, ParseError, Typed, TypedValue, void_typed};
pub use entries::{Attr, Entry, Tag, UnitEntries, tag_of};
pub use dimension::{parse_dimensionality, subrange_extent};
pub use resolver::Parser;
pub use symbols::{Symbols, compare_names};
pub use walker::{collect_functions, parse, parse_unit};
pub use dwarf::byte_order;
