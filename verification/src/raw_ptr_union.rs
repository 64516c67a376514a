//! The raw bit-packed union: one machine word holding a payload address with
//! the tag added into its low bits.
//!
//! The variant list a value is tagged against is ghost, so a value costs
//! exactly one word; operations that need the arity at run time take the
//! list descriptor as an argument and require it to match the ghost list.

use vstd::prelude::*;
use crate::arity::{
    lemma_align_transfers, lemma_aligned_headroom, lemma_mask_facts, lemma_pack_unpack,
    lemma_pow2_64_val, lemma_tag_fits, next_pow2,
};
use crate::embedding::{
    claims_pos, count_below, embeds, lemma_embeds_distinct, lemma_embeds_len_le,
    lemma_remaining_index, lemma_remaining_len_le, lemma_remaining_wf, remaining_seq, Embedding,
};
use crate::variant_list::{tags_wf, VariantList};
use crate::InvalidAlignment;

verus! {

/// The tag packed into a word: its low bits under the mask for arity `len`.
pub open spec fn word_tag(word: nat, len: nat) -> nat {
    word % next_pow2(len)
}

/// The payload address packed into a word: the word with the tag removed.
pub open spec fn word_addr(word: nat, len: nat) -> nat {
    (word - word_tag(word, len)) as nat
}

/// A word is its own payload address plus its own tag.
pub proof fn lemma_word_recompose(word: nat, len: nat)
    requires
        len <= 255,
    ensures
        word_addr(word, len) + word_tag(word, len) == word,
        word_tag(word, len) <= word,
{
    lemma_mask_facts(len);
    vstd::arithmetic::div_mod::lemma_mod_decreases(word, next_pow2(len));
}

/// Round trip of the bit packing: for any payload address with the masked
/// bits clear and any tag below the arity, splitting the packed word recovers
/// exactly the original pair.
pub proof fn lemma_round_trip(addr: nat, tag: nat, len: nat)
    requires
        len <= 255,
        tag < len,
        addr % next_pow2(len) == 0,
    ensures
        word_tag(addr + tag, len) == tag,
        word_addr(addr + tag, len) == addr,
{
    lemma_mask_facts(len);
    lemma_tag_fits(len, tag);
    lemma_pack_unpack(addr, tag, next_pow2(len));
}

/// The packing is injective: distinct valid (address, tag) pairs pack to
/// distinct words, so word equality is pair equality.
pub proof fn lemma_pack_injective(a1: nat, t1: nat, a2: nat, t2: nat, len: nat)
    requires
        len <= 255,
        t1 < len,
        t2 < len,
        a1 % next_pow2(len) == 0,
        a2 % next_pow2(len) == 0,
    ensures
        (a1 + t1 == a2 + t2) == (a1 == a2 && t1 == t2),
{
    lemma_round_trip(a1, t1, len);
    lemma_round_trip(a2, t2, len);
}

/// A payload address with a tag packed into one machine word. The variant
/// list it is tagged against exists only in the ghost view.
#[derive(Clone, Copy)]
pub struct RawPtrUnion {
    data: u64,
    tags: Ghost<Seq<u64>>,
}

impl RawPtrUnion {
    /// The variant list this value is tagged against.
    pub closed spec fn tags(self) -> Seq<u64> {
        self.tags@
    }

    /// The packed word.
    pub closed spec fn data_word(self) -> u64 {
        self.data
    }

    /// The tag of the active variant.
    pub open spec fn tag_of(self) -> nat {
        word_tag(self.data_word() as nat, self.tags().len())
    }

    /// The payload address.
    pub open spec fn addr_of(self) -> nat {
        word_addr(self.data_word() as nat, self.tags().len())
    }

    /// The type identity of the active variant.
    pub open spec fn active_ty(self) -> u64 {
        self.tags()[self.tag_of() as int]
    }

    /// A validly constructed value: well-formed list, tag below the arity,
    /// nonzero payload address with the masked bits clear.
    pub open spec fn wf(self) -> bool {
        &&& tags_wf(self.tags())
        &&& self.tag_of() < self.tags().len()
        &&& self.addr_of() != 0
        &&& self.addr_of() % next_pow2(self.tags().len()) == 0
    }

    /// Packs a payload address and a tag against list `vl`. The tag naming a
    /// declared variant and the address having the masked low bits clear are
    /// the caller's obligations; violating them is a contract violation, not
    /// a recoverable error.
    pub fn from_raw(vl: &VariantList, addr: u64, tag: u8) -> (r: RawPtrUnion)
        requires
            vl.wf(),
            (tag as nat) < vl@.len(),
            addr != 0,
            addr as nat % next_pow2(vl@.len()) == 0,
        ensures
            r.wf(),
            r.tags() == vl@,
            r.addr_of() == addr as nat,
            r.tag_of() == tag as nat,
            r.active_ty() == vl@[tag as int],
            r.data_word() as nat == addr as nat + tag as nat,
    {
        proof {
            let len = vl@.len();
            lemma_mask_facts(len);
            lemma_round_trip(addr as nat, tag as nat, len);
            lemma_pow2_64_val();
            lemma_aligned_headroom(addr as nat, next_pow2(len), pow2_64());
        }
        RawPtrUnion { data: addr + tag as u64, tags: Ghost(vl@) }
    }

    /// Fallible construction: checks the alignment at run time instead of
    /// requiring it, and returns `InvalidAlignment` exactly when the address
    /// has a nonzero bit under the mask. An out-of-range tag stays a contract
    /// violation.
    pub fn try_from_raw(vl: &VariantList, addr: u64, tag: u8) -> (r: Result<
        RawPtrUnion,
        InvalidAlignment,
    >)
        requires
            vl.wf(),
            (tag as nat) < vl@.len(),
            addr != 0,
        ensures
            match r {
                Ok(u) => {
                    &&& addr as nat % next_pow2(vl@.len()) == 0
                    &&& u.wf()
                    &&& u.tags() == vl@
                    &&& u.addr_of() == addr as nat
                    &&& u.tag_of() == tag as nat
                    &&& u.active_ty() == vl@[tag as int]
                },
                Err(_) => addr as nat % next_pow2(vl@.len()) != 0,
            },
    {
        let m = vl.mask();
        proof {
            lemma_mask_facts(vl@.len());
        }
        if addr % (m + 1) == 0 {
            Ok(Self::from_raw(vl, addr, tag))
        } else {
            Err(InvalidAlignment)
        }
    }

    /// The contract check on a tag: it must lie inside the mask and below the
    /// arity, which for a well-formed list is exactly being below the arity.
    /// Unverified callers run this before constructing and abort on failure.
    pub fn validate_tag(vl: &VariantList, tag: u8) -> (r: bool)
        requires
            vl.wf(),
        ensures
            r == ((tag as nat) < vl@.len()),
    {
        let m = vl.mask();
        proof {
            lemma_mask_facts(vl@.len());
            if (tag as nat) < vl@.len() {
                lemma_tag_fits(vl@.len(), tag as nat);
            }
        }
        (tag as u64) % (m + 1) == tag as u64 && tag < vl.len()
    }

    /// Decodes the packed word into the (payload address, tag) pair.
    pub fn split(&self, vl: &VariantList) -> (r: (u64, u8))
        requires
            self.wf(),
            vl@ == self.tags(),
        ensures
            r.0 as nat == self.addr_of(),
            r.1 as nat == self.tag_of(),
            r.0 != 0,
            (r.1 as nat) < self.tags().len(),
    {
        let m = vl.mask();
        proof {
            lemma_mask_facts(vl@.len());
            lemma_word_recompose(self.data_word() as nat, self.tags().len());
        }
        let tag = self.data % (m + 1);
        let ptr = self.data - tag;
        (ptr, tag as u8)
    }

    /// Address identity: by the injectivity of the packing, the words are
    /// equal exactly when both the payload address and the tag agree.
    pub fn ptr_eq(this: &Self, other: &Self) -> (r: bool)
        requires
            this.wf(),
            other.wf(),
            this.tags() == other.tags(),
        ensures
            r == (this.addr_of() == other.addr_of() && this.tag_of() == other.tag_of()),
    {
        proof {
            lemma_word_recompose(this.data_word() as nat, this.tags().len());
            lemma_word_recompose(other.data_word() as nat, other.tags().len());
            lemma_pack_injective(
                this.addr_of(),
                this.tag_of(),
                other.addr_of(),
                other.tag_of(),
                this.tags().len(),
            );
        }
        this.data == other.data
    }

    /// The hashable identity of the value: the packed word itself, which by
    /// injectivity stands for the (address, tag) pair. The tag is not mixed
    /// in separately; it is already part of the word.
    pub fn ptr_hash(this: &Self) -> (r: u64)
        requires
            this.wf(),
        ensures
            r == this.data_word(),
            r as nat == this.addr_of() + this.tag_of(),
    {
        proof {
            lemma_word_recompose(this.data_word() as nat, this.tags().len());
        }
        this.data
    }

    /// Widens to a superset list along `emb`, re-encoding against the larger
    /// mask; fails with `InvalidAlignment` exactly when the payload address
    /// does not have the extra low bits clear. The payload address and the
    /// active type are preserved on success.
    pub fn try_to_superset(self, vl: &VariantList, sup: &VariantList, emb: &Embedding) -> (r:
        Result<RawPtrUnion, InvalidAlignment>)
        requires
            self.wf(),
            vl@ == self.tags(),
            sup.wf(),
            embeds(emb@, vl@, sup@),
        ensures
            match r {
                Ok(u) => {
                    &&& self.addr_of() % next_pow2(sup@.len()) == 0
                    &&& u.wf()
                    &&& u.tags() == sup@
                    &&& u.addr_of() == self.addr_of()
                    &&& u.tag_of() == emb@[self.tag_of() as int] as nat
                    &&& u.active_ty() == self.active_ty()
                },
                Err(_) => self.addr_of() % next_pow2(sup@.len()) != 0,
            },
    {
        let (ptr, tag) = self.split(vl);
        let new_tag = emb.map_tag_to_superset(tag);
        RawPtrUnion::try_from_raw(sup, ptr, new_tag)
    }

    /// Widening for callers who already know the payload address is aligned
    /// for the superset's mask; a misaligned address is a contract violation.
    pub fn to_superset(self, vl: &VariantList, sup: &VariantList, emb: &Embedding) -> (r:
        RawPtrUnion)
        requires
            self.wf(),
            vl@ == self.tags(),
            sup.wf(),
            embeds(emb@, vl@, sup@),
            self.addr_of() % next_pow2(sup@.len()) == 0,
        ensures
            r.wf(),
            r.tags() == sup@,
            r.addr_of() == self.addr_of(),
            r.tag_of() == emb@[self.tag_of() as int] as nat,
            r.active_ty() == self.active_ty(),
    {
        let (ptr, tag) = self.split(vl);
        let new_tag = emb.map_tag_to_superset(tag);
        RawPtrUnion::from_raw(sup, ptr, new_tag)
    }

    /// Pure tag permutation between two equal-arity (hence equal-mask) lists:
    /// never fails, and preserves the payload address and the active type.
    pub fn reorganize(self, vl: &VariantList, new: &VariantList, emb: &Embedding) -> (r:
        RawPtrUnion)
        requires
            self.wf(),
            vl@ == self.tags(),
            new.wf(),
            embeds(emb@, vl@, new@),
            new@.len() == vl@.len(),
        ensures
            r.wf(),
            r.tags() == new@,
            r.addr_of() == self.addr_of(),
            r.tag_of() == emb@[self.tag_of() as int] as nat,
            r.active_ty() == self.active_ty(),
    {
        self.to_superset(vl, new, emb)
    }

    /// Narrows to a subset list: the active variant either sits in the subset
    /// (success, tag renumbered into the subset's numbering) or the value is
    /// carried over the Remaining list with its tag renumbered into that
    /// list's own contiguous numbering. The payload address and the active
    /// type are preserved in both branches; nothing is dropped or duplicated.
    pub fn try_to_subset(self, vl: &VariantList, sub: &VariantList, emb: &Embedding) -> (r: Result<
        RawPtrUnion,
        RawPtrUnion,
    >)
        requires
            self.wf(),
            vl@ == self.tags(),
            sub.wf(),
            embeds(emb@, sub@, vl@),
        ensures
            match r {
                Ok(u) => {
                    &&& claims_pos(emb@, self.tag_of())
                    &&& u.wf()
                    &&& u.tags() == sub@
                    &&& u.tag_of() < emb@.len()
                    &&& emb@[u.tag_of() as int] as nat == self.tag_of()
                    &&& u.addr_of() == self.addr_of()
                    &&& u.active_ty() == self.active_ty()
                },
                Err(u) => {
                    &&& !claims_pos(emb@, self.tag_of())
                    &&& u.wf()
                    &&& u.tags() == remaining_seq(vl@, emb@)
                    &&& u.tag_of() == self.tag_of() - count_below(emb@, self.tag_of())
                    &&& u.addr_of() == self.addr_of()
                    &&& u.active_ty() == self.active_ty()
                },
            },
    {
        proof {
            lemma_embeds_distinct(emb@, sub@, vl@);
            lemma_embeds_len_le(emb@, sub@, vl@);
        }
        let (ptr, tag) = self.split(vl);
        match emb.try_map_tag_to_subset(tag) {
            Ok(new_tag) => {
                proof {
                    lemma_align_transfers(self.addr_of(), sub@.len(), vl@.len());
                    assert(claims_pos(emb@, self.tag_of())) by {
                        assert(emb@[new_tag as int] as nat == self.tag_of());
                    }
                }
                Ok(RawPtrUnion::from_raw(sub, ptr, new_tag))
            },
            Err(new_tag) => {
                let rem = emb.remaining_list(vl);
                proof {
                    lemma_remaining_index(vl@, emb@, self.tag_of());
                    lemma_remaining_len_le(vl@, emb@);
                    lemma_remaining_wf(vl@, emb@);
                    lemma_align_transfers(self.addr_of(), rem@.len(), vl@.len());
                }
                Err(RawPtrUnion::from_raw(&rem, ptr, new_tag))
            },
        }
    }

    /// The sole payload of a single-variant list: the tag is necessarily
    /// zero, so the word is the payload address itself.
    pub fn into_inner(self, vl: &VariantList) -> (r: u64)
        requires
            self.wf(),
            vl@ == self.tags(),
            vl@.len() == 1,
        ensures
            r as nat == self.addr_of(),
            r != 0,
            self.tag_of() == 0,
    {
        let (ptr, _tag) = self.split(vl);
        ptr
    }

    /// Dispatch over the empty list is statically unreachable: by
    /// `lemma_empty_list_uninhabited` no well-formed value of that list
    /// exists, so a caller that reaches this holds contradictory facts, which
    /// the postcondition hands back as a tag that would index an empty list.
    pub fn unreachable(self) -> (r: u8)
        requires
            self.wf(),
            self.tags().len() == 0,
        ensures
            (r as nat) < self.tags().len(),
    {
        proof {
            assert(self.tag_of() < self.tags().len());
        }
        0
    }
}

/// Widening then narrowing is the identity: when `w` is `u` widened along
/// `e` (as `to_superset` ensures) and `r` is any success of narrowing `w`
/// back along the same `e` (as the `Ok` branch of `try_to_subset` ensures),
/// then `r` carries exactly `u`'s payload address, tag and active type; and
/// the narrowing cannot take the failure branch, since `w`'s tag is claimed.
pub proof fn lemma_widen_narrow_inverse(
    u: RawPtrUnion,
    w: RawPtrUnion,
    r: RawPtrUnion,
    e: Seq<u8>,
    sub: Seq<u64>,
    sup: Seq<u64>,
)
    requires
        embeds(e, sub, sup),
        tags_wf(sub),
        u.wf(),
        u.tags() == sub,
        w.tags() == sup,
        w.addr_of() == u.addr_of(),
        u.tag_of() < e.len() && w.tag_of() == e[u.tag_of() as int] as nat,
        r.tags() == sub,
        r.addr_of() == w.addr_of(),
        r.tag_of() < e.len() && e[r.tag_of() as int] as nat == w.tag_of(),
    ensures
        claims_pos(e, w.tag_of()),
        r.addr_of() == u.addr_of(),
        r.tag_of() == u.tag_of(),
        r.active_ty() == u.active_ty(),
{
    crate::embedding::lemma_superset_subset_inverse(e, sub, sup, u.tag_of(), r.tag_of());
}

/// Reorganizing along an embedding and back along the reverse embedding is
/// the identity on every observable of the value: the two equal-arity
/// orderings are in bijection.
pub proof fn lemma_reorganize_inverse(
    u: RawPtrUnion,
    v: RawPtrUnion,
    w: RawPtrUnion,
    e: Seq<u8>,
    e2: Seq<u8>,
    a: Seq<u64>,
    b: Seq<u64>,
)
    requires
        embeds(e, a, b),
        embeds(e2, b, a),
        tags_wf(a),
        tags_wf(b),
        u.wf(),
        u.tags() == a,
        v.tags() == b,
        v.addr_of() == u.addr_of(),
        u.tag_of() < e.len() && v.tag_of() == e[u.tag_of() as int] as nat,
        w.tags() == a,
        w.addr_of() == v.addr_of(),
        v.tag_of() < e2.len() && w.tag_of() == e2[v.tag_of() as int] as nat,
    ensures
        w.addr_of() == u.addr_of(),
        w.tag_of() == u.tag_of(),
        w.active_ty() == u.active_ty(),
{
    crate::embedding::lemma_reorganize_round_trip(e, e2, a, b, u.tag_of());
}

/// Order-independent equality: two unions holding the same payload address
/// and the same active type, each tagged against its own ordering of the
/// types, decode to equal (address, tag) pairs once both are reorganized into
/// one common ordering, so `ptr_eq` then reports them equal.
pub proof fn lemma_order_independent_equality(
    u1: RawPtrUnion,
    u2: RawPtrUnion,
    w1: RawPtrUnion,
    w2: RawPtrUnion,
    ea: Seq<u8>,
    eb: Seq<u8>,
    a: Seq<u64>,
    b: Seq<u64>,
    c: Seq<u64>,
)
    requires
        embeds(ea, a, c),
        embeds(eb, b, c),
        tags_wf(c),
        u1.wf(),
        u2.wf(),
        u1.tags() == a,
        u2.tags() == b,
        u1.addr_of() == u2.addr_of(),
        u1.active_ty() == u2.active_ty(),
        w1.tags() == c,
        w1.addr_of() == u1.addr_of(),
        u1.tag_of() < ea.len() && w1.tag_of() == ea[u1.tag_of() as int] as nat,
        w2.tags() == c,
        w2.addr_of() == u2.addr_of(),
        u2.tag_of() < eb.len() && w2.tag_of() == eb[u2.tag_of() as int] as nat,
    ensures
        w1.addr_of() == w2.addr_of(),
        w1.tag_of() == w2.tag_of(),
{
    crate::embedding::lemma_common_order_tags_agree(
        ea,
        eb,
        a,
        b,
        c,
        u1.tag_of(),
        u2.tag_of(),
    );
}

/// The empty variant list is uninhabited: no well-formed union value can be
/// tagged against it, since its tag would have to lie below an arity of zero.
pub proof fn lemma_empty_list_uninhabited(u: RawPtrUnion)
    requires
        u.tags().len() == 0,
    ensures
        !u.wf(),
{
}

/// The numeric value of 2^64 as a spec constant.
pub open spec fn pow2_64() -> nat {
    0x1_0000_0000_0000_0000
}

} // verus!
