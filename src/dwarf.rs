//! The byte order in which a file's debugging sections are read.
use vstd::prelude::*;
use gimli::RunTimeEndian;

verus! {

#[verifier::external_type_specification]
pub struct ExRunTimeEndian(RunTimeEndian);

/// The byte order that the file reports for itself. Every section of one
/// parse is read in this one order.
pub fn byte_order(little_endian: bool) -> (r: RunTimeEndian)
    ensures
        r == if little_endian {
            RunTimeEndian::Little
        } else {
            RunTimeEndian::Big
        },
{
    if little_endian {
        RunTimeEndian::Little
    } else {
        RunTimeEndian::Big
    }
}

} // verus!
