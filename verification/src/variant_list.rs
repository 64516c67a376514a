//! Ordered variant lists and structural embeddings between them.
//!
//! A variant list is an ordered sequence of pairwise-distinct pointer-holding
//! types, each named by a `u64` type identity; a tag is a zero-based position
//! in the list. An embedding of a subset list into a superset list maps each
//! subset position to the superset position that holds the same type, and the
//! superset positions it does not claim form the Remaining list.

use vstd::prelude::*;

verus! {

/// A sequence of type identities is a well-formed variant list when the
/// identities are pairwise distinct and the arity fits in a byte.
pub open spec fn tags_wf(ts: Seq<u64>) -> bool {
    &&& ts.len() <= 255
    &&& forall|i: int, j: int| 0 <= i < j < ts.len() ==> ts[i] != ts[j]
}

/// In a well-formed list, different positions hold different type identities.
pub proof fn lemma_distinct_ids(ts: Seq<u64>, i: int, j: int)
    requires
        tags_wf(ts),
        0 <= i < ts.len(),
        0 <= j < ts.len(),
        i != j,
    ensures
        ts[i] != ts[j],
{
}

/// An ordered list of distinct pointer-holding types. The position of a type
/// in the list is the tag that marks it active.
pub struct VariantList {
    ids: Vec<u64>,
}

impl View for VariantList {
    type V = Seq<u64>;

    closed spec fn view(&self) -> Seq<u64> {
        self.ids@
    }
}

impl VariantList {
    pub open spec fn wf(&self) -> bool {
        tags_wf(self@)
    }

    /// Builds a list from type identities; rejects duplicates and lists whose
    /// arity does not fit in a byte.
    pub fn new(ids: Vec<u64>) -> (r: Option<VariantList>)
        ensures
            match r {
                Some(vl) => vl@ == ids@ && vl.wf(),
                None => !tags_wf(ids@),
            },
    {
        if ids.len() > 255 {
            return None;
        }
        let mut i: usize = 0;
        while i < ids.len()
            invariant
                i <= ids@.len() <= 255,
                forall|a: int, b: int| 0 <= a < b < i ==> ids@[a] != ids@[b],
            decreases ids@.len() - i,
        {
            let mut j: usize = 0;
            while j < i
                invariant
                    j <= i < ids@.len(),
                    forall|b: int| 0 <= b < j ==> ids@[b] != ids@[i as int],
                decreases i - j,
            {
                if ids[j] == ids[i] {
                    return None;
                }
                j = j + 1;
            }
            i = i + 1;
        }
        Some(VariantList { ids })
    }

    /// The arity of the list.
    pub fn len(&self) -> (n: u8)
        requires
            self.wf(),
        ensures
            n as nat == self@.len(),
    {
        self.ids.len() as u8
    }

    /// The tag mask for this list's arity.
    pub fn mask(&self) -> (m: u64)
        requires
            self.wf(),
        ensures
            m as nat == crate::arity::mask_spec(self@.len()),
            m <= 255,
    {
        crate::arity::mask_for_len(self.ids.len() as u8)
    }

    /// The position that holds a given type identity, if any.
    pub fn position_of(&self, id: u64) -> (r: Option<u8>)
        requires
            self.wf(),
        ensures
            match r {
                Some(p) => (p as nat) < self@.len() && self@[p as int] == id,
                None => !self@.contains(id),
            },
    {
        let mut i: usize = 0;
        while i < self.ids.len()
            invariant
                i <= self@.len() <= 255,
                forall|b: int| 0 <= b < i ==> self@[b] != id,
            decreases self@.len() - i,
        {
            if self.ids[i] == id {
                return Some(i as u8);
            }
            i = i + 1;
        }
        None
    }

    /// The type identity at a position.
    pub fn get(&self, i: u8) -> (r: u64)
        requires
            self.wf(),
            (i as nat) < self@.len(),
        ensures
            r == self@[i as int],
    {
        self.ids[i as usize]
    }

    /// Wraps identities already known to form a well-formed list.
    pub(crate) fn from_checked_ids(ids: Vec<u64>) -> (r: VariantList)
        requires
            tags_wf(ids@),
        ensures
            r@ == ids@,
            r.wf(),
    {
        VariantList { ids }
    }

    /// The list with the entry at `pos` excised, order preserved.
    pub fn remove_at(&self, pos: u8) -> (r: VariantList)
        requires
            self.wf(),
            (pos as nat) < self@.len(),
        ensures
            r@ == self@.remove(pos as int),
            r.wf(),
    {
        let mut out: Vec<u64> = Vec::new();
        let mut i: usize = 0;
        while i < self.ids.len()
            invariant
                i <= self@.len() <= 255,
                (pos as nat) < self@.len(),
                i <= pos ==> out@ == self@.take(i as int),
                i > pos ==> out@ == self@.take(pos as int) + self@.subrange(pos as int + 1, i as int),
            decreases self@.len() - i,
        {
            if i != pos as usize {
                out.push(self.ids[i]);
            }
            proof {
                if i < pos as nat {
                    assert(self@.take(i as int + 1) =~= self@.take(i as int).push(self@[i as int]));
                } else if i == pos as nat {
                    assert(self@.subrange(pos as int + 1, pos as int + 1) =~= Seq::<u64>::empty());
                    assert(self@.take(pos as int) + self@.subrange(pos as int + 1, pos as int + 1)
                        =~= self@.take(pos as int));
                } else {
                    assert(self@.take(pos as int) + self@.subrange(pos as int + 1, i as int + 1)
                        =~= (self@.take(pos as int) + self@.subrange(pos as int + 1, i as int)).push(
                        self@[i as int],
                    ));
                }
            }
            i = i + 1;
        }
        proof {
            assert(out@ =~= self@.remove(pos as int));
        }
        let r = VariantList { ids: out };
        proof {
            assert forall|a: int, b: int| 0 <= a < b < r@.len() implies r@[a] != r@[b] by {
                assert(r@[a] == if a < pos as int {
                    self@[a]
                } else {
                    self@[a + 1]
                });
                assert(r@[b] == if b < pos as int {
                    self@[b]
                } else {
                    self@[b + 1]
                });
            }
        }
        r
    }
}

} // verus!
