//! Sparse vectors and what makes one acceptable.

use vstd::prelude::*;

verus! {

/// The non-zero entries of a vector: `(dimension, weight)` pairs in the
/// producer's order. A weight is the bit pattern of a double.
pub type SparseVector = Vec<(u32, u64)>;

/// Why a record or a vector is turned down.
#[derive(Clone, Copy, Debug, PartialEq, Eq, Structural)]
pub enum InputError {
    /// A dimension token is not an unsigned decimal number of 32 bits.
    BadDimension,
    /// The record holds more dimensions than weights, or fewer.
    LengthMismatch,
    /// A dimension is not below the vocabulary size.
    DimensionOutOfRange,
    /// A weight is an infinity or not a number.
    BadWeight,
    /// One dimension occurs twice in a vector.
    DuplicateDimension,
}

/// Bit pattern of positive infinity; every pattern above it is either not a
/// number or carries the sign bit.
pub const POSITIVE_INFINITY: u64 = 0x7ff0_0000_0000_0000;

/// Bit pattern of minus zero: the sign bit alone.
pub const MINUS_ZERO: u64 = 0x8000_0000_0000_0000;

/// Bit pattern of negative infinity.
pub const NEGATIVE_INFINITY: u64 = 0xfff0_0000_0000_0000;

/// A pattern without its sign bit.
pub open spec fn magnitude(bits: u64) -> u64 {
    bits & 0x7fff_ffff_ffff_ffff
}

/// A pattern is finite when its magnitude is below infinity.
pub open spec fn weight_is_finite(bits: u64) -> bool {
    magnitude(bits) < POSITIVE_INFINITY
}

/// Whether a pattern is finite: its exponent field is not all ones.
pub fn is_finite(bits: u64) -> (r: bool)
    ensures
        r == weight_is_finite(bits),
{
    assert(((bits >> 52) & 0x7ff != 0x7ff) == ((bits & 0x7fff_ffff_ffff_ffff) < 0x7ff0_0000_0000_0000)) by (bit_vector);
    (bits >> 52) & 0x7ff != 0x7ff
}

/// `d` is one of the dimensions of `v`.
pub open spec fn has_dim(v: Seq<(u32, u64)>, d: u32) -> bool {
    exists|k: int| 0 <= k < v.len() && (#[trigger] v[k]).0 == d
}

/// No dimension occurs twice in `v`.
pub open spec fn distinct_dims(v: Seq<(u32, u64)>) -> bool {
    forall|j: int, k: int| 0 <= j < k < v.len() ==> (#[trigger] v[j]).0 != (#[trigger] v[k]).0
}

/// What is wrong with a single entry, range first.
pub open spec fn entry_fault(e: (u32, u64), voc_size: usize) -> Option<InputError> {
    if e.0 >= voc_size {
        Some(InputError::DimensionOutOfRange)
    } else if !weight_is_finite(e.1) {
        Some(InputError::BadWeight)
    } else {
        None
    }
}

/// Every entry of `v` is in range and finite.
pub open spec fn entries_sound(v: Seq<(u32, u64)>, voc_size: usize) -> bool {
    forall|k: int| 0 <= k < v.len() ==> entry_fault(#[trigger] v[k], voc_size) is None
}

/// The fault of the earliest unsound entry.
pub open spec fn first_entry_fault(v: Seq<(u32, u64)>, voc_size: usize) -> Option<InputError>
    decreases v.len(),
{
    if v.len() == 0 {
        None
    } else {
        match entry_fault(v[0], voc_size) {
            Some(e) => Some(e),
            None => first_entry_fault(v.drop_first(), voc_size),
        }
    }
}

/// The reason for which `v` is turned down, if any: the earliest unsound
/// entry decides, and a repeated dimension counts only among sound entries.
pub open spec fn fault(v: Seq<(u32, u64)>, voc_size: usize) -> Option<InputError> {
    match first_entry_fault(v, voc_size) {
        Some(e) => Some(e),
        None => if distinct_dims(v) {
            None
        } else {
            Some(InputError::DuplicateDimension)
        },
    }
}

/// A vector as the data model wants it: in range, finite, no dimension twice.
pub open spec fn well_formed(v: Seq<(u32, u64)>, voc_size: usize) -> bool {
    entries_sound(v, voc_size) && distinct_dims(v)
}

pub proof fn lemma_first_entry_fault(v: Seq<(u32, u64)>, voc_size: usize)
    ensures
        first_entry_fault(v, voc_size) is None <==> entries_sound(v, voc_size),
    decreases v.len(),
{
    if v.len() > 0 {
        let rest = v.drop_first();
        lemma_first_entry_fault(rest, voc_size);
        if first_entry_fault(v, voc_size) is None {
            assert forall|k: int| 0 <= k < v.len() implies entry_fault(#[trigger] v[k], voc_size) is None by {
                if k > 0 {
                    assert(v[k] == rest[k - 1]);
                }
            }
        }
        if entries_sound(v, voc_size) {
            assert(entry_fault(v[0], voc_size) is None);
            assert forall|k: int| 0 <= k < rest.len() implies entry_fault(#[trigger] rest[k], voc_size) is None by {
                assert(rest[k] == v[k + 1]);
            }
        }
    }
}

/// A vector has no fault exactly when it is well formed.
pub proof fn lemma_fault_none(v: Seq<(u32, u64)>, voc_size: usize)
    ensures
        fault(v, voc_size) is None <==> well_formed(v, voc_size),
{
    lemma_first_entry_fault(v, voc_size);
}

/// Scans `v` for the earliest entry out of range or not finite.
pub fn check_entries(v: &SparseVector, voc_size: usize) -> (r: Result<(), InputError>)
    ensures
        r == match first_entry_fault(v@, voc_size) {
            Some(e) => Err::<(), InputError>(e),
            None => Ok(()),
        },
{
    let mut k: usize = 0;
    proof {
        assert(v@.skip(0) =~= v@);
    }
    while k < v.len()
        invariant
            k <= v.len(),
            first_entry_fault(v@, voc_size) == first_entry_fault(v@.skip(k as int), voc_size),
        decreases v.len() - k,
    {
        let e = v[k];
        proof {
            let rest = v@.skip(k as int);
            assert(rest[0] == v@[k as int]);
            assert(rest.drop_first() =~= v@.skip(k + 1));
        }
        if e.0 as usize >= voc_size {
            return Err(InputError::DimensionOutOfRange);
        }
        if !is_finite(e.1) {
            return Err(InputError::BadWeight);
        }
        k += 1;
    }
    proof {
        assert(v@.skip(k as int).len() == 0);
    }
    Ok(())
}

} // verus!
