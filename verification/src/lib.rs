//! A spatial index over points whose coordinates are scalars or intervals.
//!
//! `point` has the coordinates and what is asked of them; `sort` orders the
//! rows of a bucket; `branch` builds the nodes of the tree and lays out their
//! records; `tree` grows whole trees; `query` and `tree` search them for the
//! rows in a bounding box; `fields` reads and writes the metadata of a
//! database. `branch_lemmas`, `rearranged` and `count` prove what holds of
//! every branch and every tree.

use vstd::prelude::*;

pub mod branch;
pub mod branch_lemmas;
pub mod codec;
pub mod count;
pub mod fields;
pub mod point;
pub mod query;
pub mod rearranged;
pub mod sort;
pub mod tree;

verus! {

/// The payload that a row carries beside its point.
pub trait Value: Sized {
    /// The bytes that stand for the payload in a record.
    spec fn payload_bytes(&self) -> Seq<u8>;

    /// The bytes of the payload.
    fn payload(&self) -> (r: Result<Vec<u8>, codec::EncodeError>)
        ensures
            r is Ok,
            r.unwrap()@ == self.payload_bytes(),
    ;
}

impl<T: point::Scalar> Value for T {
    open spec fn payload_bytes(&self) -> Seq<u8> {
        codec::le_bytes(self.value(), T::width())
    }

    fn payload(&self) -> (r: Result<Vec<u8>, codec::EncodeError>) {
        point::Scalar::encode(self)
    }
}

/// A payload that its owner has encoded already: its length in eight bytes,
/// then its bytes.
impl Value for Vec<u8> {
    open spec fn payload_bytes(&self) -> Seq<u8> {
        codec::le_bytes(self@.len() as int, 8) + self@
    }

    fn payload(&self) -> (r: Result<Vec<u8>, codec::EncodeError>) {
        let mut out = match point::Scalar::encode(&(self.len() as u64)) {
            Ok(length) => length,
            Err(e) => {
                return Err(e);
            },
        };
        let mut i: usize = 0;
        while i < self.len()
            invariant
                i <= self.len(),
                out@ == codec::le_bytes(self@.len() as int, 8) + self@.take(i as int),
            decreases self.len() - i,
        {
            out.push(self[i]);
            proof {
                assert(self@.take(i as int).push(self@[i as int]) =~= self@.take(i as int + 1));
            }
            i = i + 1;
        }
        proof {
            assert(self@.take(self.len() as int) =~= self@);
        }
        Ok(out)
    }
}

} // verus!
