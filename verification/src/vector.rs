//! Vectors and their identifiers.
use crate::error::{Result, VexError};
use crate::text::{decimal, decimal_text};
use vstd::prelude::*;

verus! {

/// Stable 64-bit identifier of a vector. The width is fixed so that ids and
/// the on-disk format are the same on every target.
#[derive(Clone, Copy, Debug, PartialEq, Eq, Structural, PartialOrd, Ord, Hash)]
pub struct VectorId(pub u64);

impl From<u64> for VectorId {
    fn from(v: u64) -> (r: Self) {
        VectorId(v)
    }
}

impl vstd::std_specs::convert::FromSpecImpl<u64> for VectorId {
    open spec fn obeys_from_spec() -> bool {
        true
    }

    open spec fn from_spec(v: u64) -> Self {
        VectorId(v)
    }
}

impl VectorId {
    /// The id in decimal.
    pub fn text(&self) -> (r: String)
        ensures
            r@ == decimal(self.0 as nat),
    {
        decimal_text(self.0)
    }
}

/// A dense vector of single-precision numbers, held by their bit patterns.
///
/// Deliberately not `Copy`: vectors can be large.
#[derive(Clone, Debug, PartialEq, Eq)]
pub struct Vector {
    data: Vec<u32>,
}

impl View for Vector {
    type V = Seq<u32>;

    closed spec fn view(&self) -> Seq<u32> {
        self.data@
    }
}

impl Vector {
    /// A vector of the expected dimension.
    pub fn new(data: Vec<u32>, expected_dim: usize) -> (r: Result<Self>)
        ensures
            data@.len() == expected_dim ==> r is Ok && r->Ok_0@ == data@,
            data@.len() != expected_dim ==> r == Err::<Self, VexError>(
                VexError::DimensionMismatch {
                    expected: expected_dim,
                    actual: data@.len() as usize,
                },
            ),
    {
        if data.len() != expected_dim {
            return Err(
                VexError::DimensionMismatch { expected: expected_dim, actual: data.len() },
            );
        }
        Ok(Vector { data })
    }

    /// A vector whose dimension is the length of `data`.
    pub fn from_vec(data: Vec<u32>) -> (r: Self)
        ensures
            r@ == data@,
    {
        Vector { data }
    }

    /// The number of coordinates.
    pub fn dim(&self) -> (r: usize)
        ensures
            r == self@.len(),
    {
        self.data.len()
    }

    /// The number of coordinates.
    pub fn len(&self) -> (r: usize)
        ensures
            r == self@.len(),
    {
        self.data.len()
    }

    /// Whether the vector has no coordinates.
    pub fn is_empty(&self) -> (r: bool)
        ensures
            r == (self@.len() == 0),
    {
        self.data.len() == 0
    }

    /// The coordinates.
    pub fn as_slice(&self) -> (r: &[u32])
        ensures
            r@ == self@,
    {
        self.data.as_slice()
    }

    /// The coordinates, given up by the vector.
    pub fn into_inner(self) -> (r: Vec<u32>)
        ensures
            r@ == self@,
    {
        self.data
    }

    /// A copy of the vector.
    pub fn duplicate(&self) -> (r: Self)
        ensures
            r@ == self@,
    {
        Vector { data: copied(self.data.as_slice()) }
    }
}

/// A copy of a run of coordinates.
pub fn copied(data: &[u32]) -> (r: Vec<u32>)
    ensures
        r@ == data@,
{
    let r = vstd::slice::slice_to_vec(data);
    assert(r@ =~= data@);
    r
}

} // verus!
