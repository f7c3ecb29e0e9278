//! Fixed-size user records as they are laid out in storage.
use vstd::prelude::*;

verus! {

/// A user record: an id byte followed by a 20-byte name.
pub struct User {
    pub id: u8,
    pub username: [u8; 20],
}

/// A user record held as its 21 raw bytes.
pub struct RawUser {
    pub buf: [u8; 21],
}

impl RawUser {
    /// The raw bytes of the record, for writing in place.
    pub fn as_bytes_mut(&mut self) -> (r: &mut [u8; 21])
        ensures
            *r == old(self).buf,
    {
        &mut self.buf
    }
}

} // verus!
