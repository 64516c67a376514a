//! A tagged union over pointer-sized payloads whose variant discriminant is
//! packed into the spare low-order bits of the payload address, so that a
//! sum type over sufficiently aligned payloads costs no memory beyond one
//! machine word.
//!
//! Payload addresses and variant types are modelled as plain machine words:
//! an address is a nonzero `u64`, and each pointer-holding type is named by
//! a `u64` type identity. A variant list is an ordered sequence of distinct
//! type identities; a tag is a zero-based position in that list.

use vstd::prelude::*;

pub mod arity;
pub mod copy_ptr_union;
pub mod embedding;
pub mod ptr_union;
pub mod raw_ptr_union;
pub mod variant_list;

pub use copy_ptr_union::CopyPtrUnion;
pub use ptr_union::PtrUnion;

verus! {

/// Error returned by the fallible construct and widen operations when the
/// payload address has a nonzero bit inside the tag mask.
#[derive(Clone, Copy, PartialEq, Eq, Structural, Debug)]
pub struct InvalidAlignment;

/// The model of an erasable typed pointer: a nonzero payload address together
/// with the type identity of the pointee type. Erasing a pointer keeps the
/// address; unerasing restores the typed view; the pair is exactly what that
/// round trip preserves.
#[derive(Clone, Copy, PartialEq, Eq, Structural, Debug)]
pub struct TypedPtr {
    /// The payload address; never zero.
    pub addr: u64,
    /// The type identity of the pointee type.
    pub ty: u64,
}

impl TypedPtr {
    /// A usable typed pointer has a nonzero address.
    pub open spec fn wf(self) -> bool {
        self.addr != 0
    }
}

/// A visitor over whichever variant is active: `map_any` hands it the typed
/// pointer of the active variant. An implementor states what it yields as a
/// specification function and proves its call meets it.
pub trait Mapper: Sized {
    /// What the visitor yields.
    type Output;

    /// The value the visitor yields on a given typed pointer.
    spec fn out(self, p: TypedPtr) -> Self::Output;

    /// Visits the typed pointer of the active variant.
    fn call(self, p: TypedPtr) -> (r: Self::Output)
        ensures
            r == self.out(p),
    ;
}

/// The visitor that reports the erased payload address of the active variant.
/// Payloads are opaque one-word handles here, so their address is the one
/// attribute a visitor can read without unerasing.
pub struct ErasedAddr;

impl Mapper for ErasedAddr {
    type Output = u64;

    open spec fn out(self, p: TypedPtr) -> u64 {
        p.addr
    }

    fn call(self, p: TypedPtr) -> (r: u64)
        ensures
            r == self.out(p),
    {
        p.addr
    }
}

} // verus!
