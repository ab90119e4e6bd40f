//! The flags stored for each file in the table of contents, and functions that
//! test their bits.
use vstd::prelude::*;

verus! {

/// Set if the asset is stored in its raw (uncooked) form.
pub const PROCESSED: u8 = 0x01;

/// Set if the asset is marked as pack-unique.
pub const UNIQUE: u8 = 0x02;

/// Set if the asset is compressed.
pub const COMPRESSED: u8 = 0x04;

/// Whether every bit of the one-bit `flag` is set in `flags`.
pub open spec fn has_flag(flags: u8, flag: u8) -> bool {
    flags & flag == flag
}

/// Returns true if the asset is stored in its raw form in the asset pack (AKA it has been uncooked).
pub fn is_raw(flags: u8) -> (r: bool)
    ensures
        r == has_flag(flags, PROCESSED),
{
    assert((flags & 0x01u8 != 0) == (flags & 0x01u8 == 0x01u8)) by (bit_vector);
    flags & 0x01 != 0
}

/// Returns true if the asset is marked as pack-unique.
pub fn is_unique(flags: u8) -> (r: bool)
    ensures
        r == has_flag(flags, UNIQUE),
{
    assert((flags & 0x02u8 != 0) == (flags & 0x02u8 == 0x02u8)) by (bit_vector);
    flags & 0x02 != 0
}

/// Returns true if the asset is compressed.
pub fn is_compressed(flags: u8) -> (r: bool)
    ensures
        r == has_flag(flags, COMPRESSED),
{
    assert((flags & 0x04u8 != 0) == (flags & 0x04u8 == 0x04u8)) by (bit_vector);
    flags & 0x04 != 0
}

/// Setting a flag makes it test as set, and leaves the other flags as they were.
pub proof fn lemma_set_flag(flags: u8, flag: u8, other: u8)
    requires
        flag == PROCESSED || flag == UNIQUE || flag == COMPRESSED,
        other == PROCESSED || other == UNIQUE || other == COMPRESSED,
        other != flag,
    ensures
        has_flag(flags | flag, flag),
        has_flag(flags | flag, other) == has_flag(flags, other),
{
    assert(flag == 1u8 || flag == 2u8 || flag == 4u8);
    assert(other == 1u8 || other == 2u8 || other == 4u8);
    assert((flag == 1u8 || flag == 2u8 || flag == 4u8) ==> (flags | flag) & flag == flag)
        by (bit_vector);
    assert((flag == 1u8 || flag == 2u8 || flag == 4u8) && (other == 1u8 || other == 2u8
        || other == 4u8) && other != flag ==> (((flags | flag) & other == other) == (flags & other
        == other))) by (bit_vector);
}

} // verus!
