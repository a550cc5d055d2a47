//! The ways in which a filter operation can fail.

use vstd::prelude::*;

verus! {

/// Why a filter operation failed.
#[derive(Clone, Copy, Debug, PartialEq, Eq, Structural)]
pub enum QuotientFilterError {
    /// The table around this quotient is inconsistent, or holds no free slot.
    InvalidQuotientAccess(usize),
    /// The quotient width exceeds what the fingerprint width can address.
    InvalidQuotientSize,
    /// Two filters of different table sizes cannot be merged.
    NotEqualSize,
    /// A run was found whose quotient has no occupied home slot.
    NotAbleToFindOccupied,
    /// A fingerprint or an index does not fit the table's index range.
    ConvertingError,
}

impl QuotientFilterError {
    /// A short description of the error.
    pub fn message(&self) -> (text: &'static str)
        ensures
            text@ == match *self {
                QuotientFilterError::InvalidQuotientAccess(_) => "Invalid quotient access"@,
                QuotientFilterError::InvalidQuotientSize =>
                    "Quotient size is too large for the fingerprint width"@,
                QuotientFilterError::NotEqualSize =>
                    "Filters need to have the same size for merging"@,
                QuotientFilterError::NotAbleToFindOccupied => "Next occupied slot not found"@,
                QuotientFilterError::ConvertingError => "Fingerprint does not fit the table"@,
            },
    {
        match self {
            QuotientFilterError::InvalidQuotientAccess(_) => "Invalid quotient access",
            QuotientFilterError::InvalidQuotientSize =>
                "Quotient size is too large for the fingerprint width",
            QuotientFilterError::NotEqualSize => "Filters need to have the same size for merging",
            QuotientFilterError::NotAbleToFindOccupied => "Next occupied slot not found",
            QuotientFilterError::ConvertingError => "Fingerprint does not fit the table",
        }
    }
}

} // verus!
