//! Bodies that were read as JSON, and the refusal of those that cannot be.

use vstd::prelude::*;

verus! {

/// A value that a body spells.
pub struct SonicJson<T>(pub T);

/// A body that does not spell the value asked for.
pub struct SonicJsonRejection;

/// The status of a request that cannot be processed.
pub const UNPROCESSABLE_ENTITY: u16 = 422;

impl SonicJsonRejection {
    /// The status that a rejected request is answered with.
    pub fn status(&self) -> (r: u16)
        ensures
            r == UNPROCESSABLE_ENTITY,
            r == 422,
    {
        UNPROCESSABLE_ENTITY
    }
}

impl<T> SonicJson<T> {
    /// What comes of reading a body: the value, or a rejection where there is
    /// none.
    pub fn from_read(read: Option<T>) -> (r: Result<SonicJson<T>, SonicJsonRejection>)
        ensures
            match read {
                Some(value) => r == Ok::<SonicJson<T>, SonicJsonRejection>(SonicJson(value)),
                None => r is Err,
            },
    {
        match read {
            Some(value) => Ok(SonicJson(value)),
            None => Err(SonicJsonRejection),
        }
    }
}

} // verus!
