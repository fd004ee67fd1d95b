//! The backing-file capability consumed by the mapping layer, and the error
//! taxonomy surfaced to callers.

use vstd::prelude::*;

verus! {

/// Errors surfaced by region and manager operations.
#[derive(Clone, Copy, PartialEq, Eq, Structural, Debug)]
pub enum VmError {
    /// A load was requested for a page this component believes is already
    /// resident: a caller-contract violation.
    AlreadyPopulated,
    /// The computed file offset for a requested page lies outside
    /// `[0, file length)`.
    InvalidMapping,
    /// A failure reported by the backing-file capability; propagated to the
    /// caller unchanged.
    Io,
}

/// The file capability a memory-mapped region reads from. The embedding
/// kernel supplies the implementation; it must be safe to use from the
/// concurrent callers it hands the region to.
pub trait VmFile: Send + Sync + Sized {
    /// Duplicate this handle. The duplicate must be an equivalent handle to
    /// the same shared file, which implementors state by proving it equal to
    /// the original.
    fn dup(&self) -> (r: Self)
        ensures
            r == *self,
    ;

    /// Read bytes from the file starting at byte `offset` into `buf`,
    /// returning how many bytes were read. Reads may be short; they never
    /// grow or shrink the buffer.
    fn read_at(&self, buf: &mut Vec<u8>, offset: u64) -> (r: Result<usize, VmError>)
        ensures
            final(buf)@.len() == old(buf)@.len(),
            r is Ok ==> r.unwrap() <= old(buf)@.len(),
    ;

    /// The current length of the file in bytes.
    fn len(&self) -> Result<u64, VmError>;

    /// Whether the file is empty, derived from its length.
    fn is_empty(&self) -> Result<bool, VmError> {
        match self.len() {
            Ok(n) => Ok(n == 0),
            Err(e) => Err(e),
        }
    }
}

} // verus!
