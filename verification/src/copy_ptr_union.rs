//! The freely duplicable union wrapper: every payload is a non-owning pointer
//! with no destructor, so values may be copied bitwise and dropped freely.

use vstd::prelude::*;
use crate::arity::next_pow2;
use crate::embedding::{claims_pos, count_below, embeds, remaining_seq, Embedding};
use crate::raw_ptr_union::RawPtrUnion;
use crate::variant_list::{lemma_distinct_ids, VariantList};
use crate::{InvalidAlignment, TypedPtr};

verus! {

/// A union over non-owning pointers: one machine word, freely duplicable.
#[derive(Clone, Copy)]
pub struct CopyPtrUnion {
    raw: RawPtrUnion,
}

impl CopyPtrUnion {
    /// The variant list this value is tagged against.
    pub closed spec fn tags(self) -> Seq<u64> {
        self.raw.tags()
    }

    /// The tag of the active variant.
    pub closed spec fn tag_of(self) -> nat {
        self.raw.tag_of()
    }

    /// The payload address.
    pub closed spec fn addr_of(self) -> nat {
        self.raw.addr_of()
    }

    /// The type identity of the active variant.
    pub closed spec fn active_ty(self) -> u64 {
        self.raw.active_ty()
    }

    /// A validly constructed value.
    pub closed spec fn wf(self) -> bool {
        self.raw.wf()
    }

    /// Encodes a typed pointer whose type sits at position `pos` of `vl`.
    /// The position proof is the caller's; the alignment demand is the same
    /// contract the packing itself imposes.
    pub fn new(vl: &VariantList, ptr: TypedPtr, pos: u8) -> (r: CopyPtrUnion)
        requires
            vl.wf(),
            (pos as nat) < vl@.len(),
            vl@[pos as int] == ptr.ty,
            ptr.wf(),
            ptr.addr as nat % next_pow2(vl@.len()) == 0,
        ensures
            r.wf(),
            r.tags() == vl@,
            r.addr_of() == ptr.addr as nat,
            r.tag_of() == pos as nat,
            r.active_ty() == ptr.ty,
    {
        CopyPtrUnion { raw: RawPtrUnion::from_raw(vl, ptr.addr, pos) }
    }

    /// Overwrites with a new payload of the same list. Nothing is released:
    /// payloads of this wrapper own nothing.
    pub fn set(&mut self, vl: &VariantList, ptr: TypedPtr, pos: u8)
        requires
            old(self).wf(),
            vl@ == old(self).tags(),
            (pos as nat) < vl@.len(),
            vl@[pos as int] == ptr.ty,
            ptr.wf(),
            ptr.addr as nat % next_pow2(vl@.len()) == 0,
        ensures
            final(self).wf(),
            final(self).tags() == vl@,
            final(self).addr_of() == ptr.addr as nat,
            final(self).tag_of() == pos as nat,
            final(self).active_ty() == ptr.ty,
    {
        *self = Self::new(vl, ptr, pos);
    }

    /// The tag of the active variant.
    pub fn tag(&self, vl: &VariantList) -> (t: usize)
        requires
            self.wf(),
            vl@ == self.tags(),
        ensures
            t as nat == self.tag_of(),
            (t as nat) < self.tags().len(),
    {
        self.raw.split(vl).1 as usize
    }

    /// Address identity: equal exactly when payload address and tag agree.
    pub fn ptr_eq(this: &Self, other: &Self) -> (r: bool)
        requires
            this.wf(),
            other.wf(),
            this.tags() == other.tags(),
        ensures
            r == (this.addr_of() == other.addr_of() && this.tag_of() == other.tag_of()),
    {
        RawPtrUnion::ptr_eq(&this.raw, &other.raw)
    }

    /// The hashable identity: the packed word, which stands injectively for
    /// the (address, tag) pair.
    pub fn ptr_hash(this: &Self) -> (r: u64)
        requires
            this.wf(),
        ensures
            r as nat == this.addr_of() + this.tag_of(),
    {
        RawPtrUnion::ptr_hash(&this.raw)
    }

    /// Is the variant at position `pos` the active one? For a well-formed
    /// list this is also whether the active type is the type at `pos`.
    pub fn is(&self, vl: &VariantList, pos: u8) -> (r: bool)
        requires
            self.wf(),
            vl@ == self.tags(),
            (pos as nat) < vl@.len(),
        ensures
            r == (self.tag_of() == pos as nat),
            r == (self.active_ty() == vl@[pos as int]),
    {
        proof {
            if self.tag_of() != pos as nat {
                lemma_distinct_ids(vl@, self.tag_of() as int, pos as int);
            }
        }
        self.raw.split(vl).1 == pos
    }

    /// The typed pointer at position `pos`, when that variant is active. A
    /// returned copy is fine here: payloads are freely duplicable.
    pub fn try_cast(&self, vl: &VariantList, pos: u8) -> (r: Option<TypedPtr>)
        requires
            self.wf(),
            vl@ == self.tags(),
            (pos as nat) < vl@.len(),
        ensures
            match r {
                Some(p) => {
                    &&& self.tag_of() == pos as nat
                    &&& p.addr as nat == self.addr_of()
                    &&& p.ty == self.active_ty()
                    &&& p.wf()
                },
                None => self.tag_of() != pos as nat,
            },
    {
        if self.is(vl, pos) {
            let (addr, _tag) = self.raw.split(vl);
            Some(TypedPtr { addr, ty: vl.get(pos) })
        } else {
            None
        }
    }

    /// Re-materializes the active variant as a typed pointer, without
    /// consuming the union: a peek over whichever variant is active.
    pub fn unpack(&self, vl: &VariantList) -> (p: TypedPtr)
        requires
            self.wf(),
            vl@ == self.tags(),
        ensures
            p.addr as nat == self.addr_of(),
            p.ty == self.active_ty(),
            p.wf(),
    {
        let (addr, tag) = self.raw.split(vl);
        TypedPtr { addr, ty: vl.get(tag) }
    }

    /// Dispatches a visitor to whichever variant is active, handing it the
    /// same typed pointer that `unpack` yields.
    pub fn map_any<F: crate::Mapper>(&self, vl: &VariantList, f: F) -> (r: F::Output)
        requires
            self.wf(),
            vl@ == self.tags(),
        ensures
            r == f.out((TypedPtr { addr: self.addr_of() as u64, ty: self.active_ty() })),
    {
        let p = self.unpack(vl);
        f.call(p)
    }

    /// Widens to a superset list, re-validating the alignment against the
    /// possibly larger mask.
    pub fn try_to_superset(self, vl: &VariantList, sup: &VariantList, emb: &Embedding) -> (r:
        Result<CopyPtrUnion, InvalidAlignment>)
        requires
            self.wf(),
            vl@ == self.tags(),
            sup.wf(),
            embeds(emb@, vl@, sup@),
        ensures
            match r {
                Ok(u) => {
                    &&& self.addr_of() % next_pow2(sup@.len()) == 0
                    &&& u.wf()
                    &&& u.tags() == sup@
                    &&& u.addr_of() == self.addr_of()
                    &&& u.tag_of() == emb@[self.tag_of() as int] as nat
                    &&& u.active_ty() == self.active_ty()
                },
                Err(_) => self.addr_of() % next_pow2(sup@.len()) != 0,
            },
    {
        match self.raw.try_to_superset(vl, sup, emb) {
            Ok(raw) => Ok(CopyPtrUnion { raw }),
            Err(e) => Err(e),
        }
    }

    /// Widening for callers who already know the address is aligned for the
    /// superset's mask.
    pub fn to_superset(self, vl: &VariantList, sup: &VariantList, emb: &Embedding) -> (r:
        CopyPtrUnion)
        requires
            self.wf(),
            vl@ == self.tags(),
            sup.wf(),
            embeds(emb@, vl@, sup@),
            self.addr_of() % next_pow2(sup@.len()) == 0,
        ensures
            r.wf(),
            r.tags() == sup@,
            r.addr_of() == self.addr_of(),
            r.tag_of() == emb@[self.tag_of() as int] as nat,
            r.active_ty() == self.active_ty(),
    {
        CopyPtrUnion { raw: self.raw.to_superset(vl, sup, emb) }
    }

    /// Pure tag permutation between equal-arity, equal-mask lists.
    pub fn reorganize(self, vl: &VariantList, new: &VariantList, emb: &Embedding) -> (r:
        CopyPtrUnion)
        requires
            self.wf(),
            vl@ == self.tags(),
            new.wf(),
            embeds(emb@, vl@, new@),
            new@.len() == vl@.len(),
        ensures
            r.wf(),
            r.tags() == new@,
            r.addr_of() == self.addr_of(),
            r.tag_of() == emb@[self.tag_of() as int] as nat,
            r.active_ty() == self.active_ty(),
    {
        CopyPtrUnion { raw: self.raw.reorganize(vl, new, emb) }
    }

    /// Narrows to a subset list, or carries the value over the Remaining list
    /// when the active variant is not in the subset. The payload and active
    /// type survive both branches.
    pub fn try_to_subset(self, vl: &VariantList, sub: &VariantList, emb: &Embedding) -> (r: Result<
        CopyPtrUnion,
        CopyPtrUnion,
    >)
        requires
            self.wf(),
            vl@ == self.tags(),
            sub.wf(),
            embeds(emb@, sub@, vl@),
        ensures
            match r {
                Ok(u) => {
                    &&& claims_pos(emb@, self.tag_of())
                    &&& u.wf()
                    &&& u.tags() == sub@
                    &&& u.tag_of() < emb@.len()
                    &&& emb@[u.tag_of() as int] as nat == self.tag_of()
                    &&& u.addr_of() == self.addr_of()
                    &&& u.active_ty() == self.active_ty()
                },
                Err(u) => {
                    &&& !claims_pos(emb@, self.tag_of())
                    &&& u.wf()
                    &&& u.tags() == remaining_seq(vl@, emb@)
                    &&& u.tag_of() == self.tag_of() - count_below(emb@, self.tag_of())
                    &&& u.addr_of() == self.addr_of()
                    &&& u.active_ty() == self.active_ty()
                },
            },
    {
        match self.raw.try_to_subset(vl, sub, emb) {
            Ok(raw) => Ok(CopyPtrUnion { raw }),
            Err(raw) => Err(CopyPtrUnion { raw }),
        }
    }

    /// Extracts the typed pointer at position `pos` if it is active, or hands
    /// the whole value back over the list with position `pos` excised, so the
    /// caller can keep trying other types without losing the payload.
    pub fn take(self, vl: &VariantList, pos: u8) -> (r: Result<TypedPtr, CopyPtrUnion>)
        requires
            self.wf(),
            vl@ == self.tags(),
            (pos as nat) < vl@.len(),
        ensures
            match r {
                Ok(p) => {
                    &&& self.tag_of() == pos as nat
                    &&& p.addr as nat == self.addr_of()
                    &&& p.ty == self.active_ty()
                    &&& p.wf()
                },
                Err(u) => {
                    &&& self.tag_of() != pos as nat
                    &&& u.wf()
                    &&& u.tags() == vl@.remove(pos as int)
                    &&& u.tag_of() == if self.tag_of() < pos as nat {
                        self.tag_of()
                    } else {
                        (self.tag_of() - 1) as nat
                    }
                    &&& u.addr_of() == self.addr_of()
                    &&& u.active_ty() == self.active_ty()
                },
            },
    {
        let (addr, tag) = self.raw.split(vl);
        if tag == pos {
            Ok(TypedPtr { addr, ty: vl.get(pos) })
        } else {
            let rem = vl.remove_at(pos);
            let new_tag = if tag < pos {
                tag
            } else {
                tag - 1
            };
            proof {
                crate::arity::lemma_align_transfers(self.addr_of(), rem@.len(), vl@.len());
            }
            Err(CopyPtrUnion { raw: RawPtrUnion::from_raw(&rem, addr, new_tag) })
        }
    }

    /// The sole payload of a single-variant list.
    pub fn into_inner(self, vl: &VariantList) -> (p: TypedPtr)
        requires
            self.wf(),
            vl@ == self.tags(),
            vl@.len() == 1,
        ensures
            p.addr as nat == self.addr_of(),
            p.ty == vl@[0],
            p.ty == self.active_ty(),
            p.wf(),
    {
        let addr = self.raw.into_inner(vl);
        TypedPtr { addr, ty: vl.get(0) }
    }

    /// Dispatch over the empty list is statically unreachable: no well-formed
    /// value of that list exists, so a caller that reaches this holds
    /// contradictory facts, handed back as a tag indexing an empty list.
    pub fn unreachable(self) -> (r: u8)
        requires
            self.wf(),
            self.tags().len() == 0,
        ensures
            (r as nat) < self.tags().len(),
    {
        self.raw.unreachable()
    }
}

} // verus!
