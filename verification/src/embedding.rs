//! Structural embeddings of one variant list into another, with the tag
//! renumbering in each direction and the Remaining-list arithmetic.

use vstd::prelude::*;
use crate::variant_list::{tags_wf, VariantList};

verus! {

/// Does `e` embed `sub` into `sup` position by position? Position `i` of the
/// subset list occupies position `e[i]` of the superset list, which must hold
/// the same type identity.
pub open spec fn embeds(e: Seq<u8>, sub: Seq<u64>, sup: Seq<u64>) -> bool {
    &&& e.len() == sub.len()
    &&& forall|i: int|
        0 <= i < e.len() ==> (((#[trigger] e[i]) as nat) < sup.len() && sup[e[i] as int] == sub[i])
}

/// Pairwise-distinct superset positions.
pub open spec fn distinct_positions(e: Seq<u8>) -> bool {
    forall|i: int, j: int| 0 <= i < j < e.len() ==> e[i] != e[j]
}

/// Does the embedding claim superset position `t`?
pub open spec fn claims_pos(e: Seq<u8>, t: nat) -> bool {
    exists|j: int| 0 <= j < e.len() && e[j] as nat == t
}

/// How many claimed superset positions lie strictly below `t`. When tag `t`
/// is not claimed, this is how much it shifts down in the Remaining list.
pub open spec fn count_below(e: Seq<u8>, t: nat) -> nat
    decreases e.len(),
{
    if e.len() == 0 {
        0
    } else {
        count_below(e.drop_last(), t) + if (e.last() as nat) < t {
            1nat
        } else {
            0nat
        }
    }
}

/// The superset entries at positions the embedding does not claim, in order:
/// the Remaining list.
pub open spec fn remaining_seq(sup: Seq<u64>, e: Seq<u8>) -> Seq<u64>
    decreases sup.len(),
{
    if sup.len() == 0 {
        Seq::empty()
    } else {
        let prefix = remaining_seq(sup.drop_last(), e);
        if claims_pos(e, (sup.len() - 1) as nat) {
            prefix
        } else {
            prefix.push(sup.last())
        }
    }
}

/// An embedding between well-formed lists claims distinct positions.
pub proof fn lemma_embeds_distinct(e: Seq<u8>, sub: Seq<u64>, sup: Seq<u64>)
    requires
        embeds(e, sub, sup),
        tags_wf(sub),
    ensures
        distinct_positions(e),
{
    assert forall|i: int, j: int| 0 <= i < j < e.len() implies e[i] != e[j] by {
        assert(sup[e[i] as int] == sub[i]);
        assert(sup[e[j] as int] == sub[j]);
    }
}

/// Nothing lies below zero.
pub proof fn lemma_count_below_zero(e: Seq<u8>)
    ensures
        count_below(e, 0) == 0,
    decreases e.len(),
{
    if e.len() > 0 {
        lemma_count_below_zero(e.drop_last());
    }
}

/// `count_below` grows by one exactly at claimed positions.
pub proof fn lemma_count_below_step(e: Seq<u8>, t: nat)
    requires
        distinct_positions(e),
    ensures
        count_below(e, t + 1) == count_below(e, t) + if claims_pos(e, t) {
            1nat
        } else {
            0nat
        },
    decreases e.len(),
{
    if e.len() > 0 {
        let d = e.drop_last();
        let x = e.last();
        lemma_count_below_step(d, t);
        if x as nat == t {
            // by distinctness no earlier entry equals t
            assert(!claims_pos(d, t)) by {
                if claims_pos(d, t) {
                    let j = choose|j: int| 0 <= j < d.len() && d[j] as nat == t;
                    assert(e[j] == e[e.len() - 1]);
                }
            }
            assert(claims_pos(e, t)) by {
                assert(e[e.len() - 1] as nat == t);
            }
        } else {
            assert(claims_pos(e, t) == claims_pos(d, t)) by {
                if claims_pos(e, t) {
                    let j = choose|j: int| 0 <= j < e.len() && e[j] as nat == t;
                    assert(j < e.len() - 1);
                    assert(d[j] as nat == t);
                }
                if claims_pos(d, t) {
                    let j = choose|j: int| 0 <= j < d.len() && d[j] as nat == t;
                    assert(e[j] as nat == t);
                }
            }
        }
    }
}

/// At most `t` claimed positions lie below `t`.
pub proof fn lemma_count_below_le(e: Seq<u8>, t: nat)
    requires
        distinct_positions(e),
    ensures
        count_below(e, t) <= t,
    decreases t,
{
    if t == 0 {
        lemma_count_below_zero(e);
    } else {
        lemma_count_below_le(e, (t - 1) as nat);
        lemma_count_below_step(e, (t - 1) as nat);
    }
}

/// The Remaining list is the superset minus the claimed positions, so its
/// length is the superset arity minus the claimed positions below it.
pub proof fn lemma_remaining_len(sup: Seq<u64>, e: Seq<u8>)
    requires
        distinct_positions(e),
    ensures
        remaining_seq(sup, e).len() + count_below(e, sup.len()) == sup.len(),
    decreases sup.len(),
{
    if sup.len() == 0 {
        lemma_count_below_zero(e);
    } else {
        let l = (sup.len() - 1) as nat;
        lemma_remaining_len(sup.drop_last(), e);
        lemma_count_below_step(e, l);
    }
}

/// Unclaimed superset position `t` lands in the Remaining list at `t` minus
/// the claimed positions below it, holding the same entry.
pub proof fn lemma_remaining_index(sup: Seq<u64>, e: Seq<u8>, t: nat)
    requires
        distinct_positions(e),
        t < sup.len(),
        !claims_pos(e, t),
    ensures
        count_below(e, t) <= t,
        t - count_below(e, t) < remaining_seq(sup, e).len(),
        remaining_seq(sup, e)[t - count_below(e, t)] == sup[t as int],
    decreases sup.len(),
{
    lemma_count_below_le(e, t);
    let l = (sup.len() - 1) as nat;
    let prefix = remaining_seq(sup.drop_last(), e);
    if t == l {
        lemma_remaining_len(sup.drop_last(), e);
        // every claimed position below t is counted in `count_below(e, t)`
        assert(prefix.len() == t - count_below(e, t));
    } else {
        lemma_remaining_index(sup.drop_last(), e, t);
    }
}

/// The Remaining list never outgrows the superset list.
pub proof fn lemma_remaining_len_le(sup: Seq<u64>, e: Seq<u8>)
    ensures
        remaining_seq(sup, e).len() <= sup.len(),
    decreases sup.len(),
{
    if sup.len() > 0 {
        lemma_remaining_len_le(sup.drop_last(), e);
    }
}

/// Entries of the Remaining list come from the superset list; with a
/// well-formed superset the Remaining list is itself well-formed.
pub proof fn lemma_remaining_wf(sup: Seq<u64>, e: Seq<u8>)
    requires
        tags_wf(sup),
    ensures
        tags_wf(remaining_seq(sup, e)),
        forall|k: int|
            0 <= k < remaining_seq(sup, e).len() ==> sup.contains(
                #[trigger] remaining_seq(sup, e)[k],
            ),
    decreases sup.len(),
{
    if sup.len() > 0 {
        let d = sup.drop_last();
        assert(tags_wf(d));
        lemma_remaining_wf(d, e);
        let prefix = remaining_seq(d, e);
        lemma_remaining_len_le(sup, e);
        assert forall|k: int| 0 <= k < prefix.len() implies sup.contains(prefix[k]) by {
            assert(d.contains(prefix[k]));
            let j = choose|j: int| 0 <= j < d.len() && d[j] == prefix[k];
            assert(sup[j] == prefix[k]);
        }
        if !claims_pos(e, (sup.len() - 1) as nat) {
            let r = remaining_seq(sup, e);
            assert(r == prefix.push(sup.last()));
            assert forall|i: int, j: int| 0 <= i < j < r.len() implies r[i] != r[j] by {
                if j == r.len() - 1 {
                    // the pushed last entry of `sup` differs from every prefix
                    // entry, each of which sits earlier in `sup`
                    assert(d.contains(prefix[i]));
                    let k = choose|k: int| 0 <= k < d.len() && d[k] == prefix[i];
                    assert(sup[k] == r[i] && sup[sup.len() - 1] == r[j]);
                } else {
                    assert(prefix[i] != prefix[j]);
                }
            }
        }
    }
}

/// A structural embedding of one variant list (the subset) into another (the
/// superset): subset position `i` occupies superset position `pos[i]`.
pub struct Embedding {
    pos: Vec<u8>,
}

impl View for Embedding {
    type V = Seq<u8>;

    closed spec fn view(&self) -> Seq<u8> {
        self.pos@
    }
}

impl Embedding {
    /// Derives the embedding of `sub` into `sup` by looking up each type
    /// identity, or reports that some type of `sub` is missing from `sup`.
    pub fn derive(sub: &VariantList, sup: &VariantList) -> (r: Option<Embedding>)
        requires
            sub.wf(),
            sup.wf(),
        ensures
            match r {
                Some(e) => embeds(e@, sub@, sup@),
                None => exists|i: int| 0 <= i < sub@.len() && !sup@.contains(sub@[i]),
            },
    {
        let mut pos: Vec<u8> = Vec::new();
        let n = sub.len();
        let mut i: u8 = 0;
        while i < n
            invariant
                sub.wf(),
                sup.wf(),
                n as nat == sub@.len(),
                i <= n,
                pos@.len() == i as nat,
                forall|k: int|
                    0 <= k < i as int ==> (#[trigger] pos@[k] as nat) < sup@.len() && sup@[pos@[k] as int]
                        == sub@[k],
            decreases n - i,
        {
            match sup.position_of(sub.get(i)) {
                Some(p) => pos.push(p),
                None => {
                    return None;
                },
            }
            i = i + 1;
        }
        Some(Embedding { pos })
    }

    /// Renumbers a tag native to the subset list into the superset list's
    /// numbering: position `tag` of the subset sits at `pos[tag]`.
    pub fn map_tag_to_superset(&self, tag: u8) -> (r: u8)
        requires
            (tag as nat) < self@.len(),
        ensures
            r == self@[tag as int],
    {
        self.pos[tag as usize]
    }

    /// Takes a tag native to the superset list and either renumbers it into
    /// the subset list (when the embedding claims that position) or into the
    /// Remaining list's own contiguous numbering (subtracting one for every
    /// claimed position below it).
    pub fn try_map_tag_to_subset(&self, tag: u8) -> (r: Result<u8, u8>)
        requires
            distinct_positions(self@),
            self@.len() <= 255,
        ensures
            match r {
                Ok(i) => (i as nat) < self@.len() && self@[i as int] == tag,
                Err(n) => {
                    &&& !claims_pos(self@, tag as nat)
                    &&& count_below(self@, tag as nat) <= tag as nat
                    &&& n as nat == tag as nat - count_below(self@, tag as nat)
                },
            },
    {
        let mut i: usize = 0;
        let mut below: u8 = 0;
        while i < self.pos.len()
            invariant
                distinct_positions(self@),
                self@.len() <= 255,
                i <= self@.len(),
                below as nat == count_below(self@.take(i as int), tag as nat),
                below <= tag,
                forall|j: int| 0 <= j < i ==> self@[j] != tag,
            decreases self@.len() - i,
        {
            let p = self.pos[i];
            if p == tag {
                return Ok(i as u8);
            }
            proof {
                assert(self@.take(i as int + 1).drop_last() =~= self@.take(i as int));
                assert(self@.take(i as int + 1).last() == self@[i as int]);
                assert(distinct_positions(self@.take(i as int + 1)));
                lemma_count_below_le(self@.take(i as int + 1), tag as nat);
            }
            if p < tag {
                below = below + 1;
            }
            i = i + 1;
        }
        proof {
            assert(self@.take(self@.len() as int) =~= self@);
            lemma_count_below_le(self@, tag as nat);
        }
        Err(tag - below)
    }

    /// Builds the Remaining list: the superset minus the positions this
    /// embedding claims, order preserved.
    pub fn remaining_list(&self, sup: &VariantList) -> (r: VariantList)
        requires
            sup.wf(),
            distinct_positions(self@),
        ensures
            r@ == remaining_seq(sup@, self@),
            r.wf(),
    {
        let n = sup.len();
        let mut out: Vec<u64> = Vec::new();
        let mut t: u8 = 0;
        while t < n
            invariant
                sup.wf(),
                distinct_positions(self@),
                n as nat == sup@.len(),
                t <= n,
                out@ == remaining_seq(sup@.take(t as int), self@),
            decreases n - t,
        {
            proof {
                assert(sup@.take(t as int + 1).drop_last() =~= sup@.take(t as int));
                assert(sup@.take(t as int + 1).last() == sup@[t as int]);
            }
            if !self.claims(t) {
                out.push(sup.get(t));
            }
            t = t + 1;
        }
        proof {
            assert(sup@.take(sup@.len() as int) =~= sup@);
            lemma_remaining_wf(sup@, self@);
        }
        VariantList::from_checked_ids(out)
    }

    /// Does this embedding claim superset position `t`?
    pub fn claims(&self, t: u8) -> (r: bool)
        ensures
            r == claims_pos(self@, t as nat),
    {
        let mut i: usize = 0;
        while i < self.pos.len()
            invariant
                i <= self@.len(),
                forall|j: int| 0 <= j < i ==> self@[j] != t,
            decreases self@.len() - i,
        {
            if self.pos[i] == t {
                return true;
            }
            i = i + 1;
        }
        false
    }
}

/// Widening a subset tag into the superset claims that position, and
/// narrowing back can only answer the original tag: superset after subset is
/// the identity.
pub proof fn lemma_superset_subset_inverse(
    e: Seq<u8>,
    sub: Seq<u64>,
    sup: Seq<u64>,
    t: nat,
    i: nat,
)
    requires
        embeds(e, sub, sup),
        tags_wf(sub),
        t < sub.len(),
        i < e.len(),
        e[i as int] == e[t as int],
    ensures
        i == t,
        claims_pos(e, e[t as int] as nat),
{
    lemma_embeds_distinct(e, sub, sup);
    assert(e[t as int] as nat == e[t as int] as nat && 0 <= t < e.len());
}

/// A subset list never has more variants than the list it embeds into.
pub proof fn lemma_embeds_len_le(e: Seq<u8>, sub: Seq<u64>, sup: Seq<u64>)
    requires
        embeds(e, sub, sup),
        tags_wf(sub),
    ensures
        sub.len() <= sup.len(),
{
    lemma_embeds_distinct(e, sub, sup);
    let n = e.len() as int;
    let dom = vstd::set_lib::set_int_range(0, n);
    let f = |i: int| e[i] as int;
    let img = dom.map(f);
    vstd::set_lib::lemma_int_range(0, n);
    assert(vstd::relations::injective_on(f, dom));
    vstd::set_lib::lemma_map_size(dom, img, f);
    assert forall|y: int| img.contains(y) implies vstd::set_lib::set_int_range(
        0,
        sup.len() as int,
    ).contains(y) by {
        let j = choose|j: int| dom.contains(j) && f(j) == y;
        assert((e[j] as nat) < sup.len());
    }
    vstd::set_lib::lemma_int_range(0, sup.len() as int);
    vstd::set_lib::lemma_len_subset(img, vstd::set_lib::set_int_range(0, sup.len() as int));
}

/// Between two equal-arity lists an embedding claims every superset position:
/// the tag renumbering is a bijection.
pub proof fn lemma_equal_arity_bijection(e: Seq<u8>, sub: Seq<u64>, sup: Seq<u64>)
    requires
        embeds(e, sub, sup),
        tags_wf(sub),
        sub.len() == sup.len(),
    ensures
        distinct_positions(e),
        forall|s: nat| s < sup.len() ==> claims_pos(e, s),
{
    lemma_embeds_distinct(e, sub, sup);
    let n = sub.len() as int;
    let dom = vstd::set_lib::set_int_range(0, n);
    let f = |i: int| e[i] as int;
    let img = dom.map(f);
    vstd::set_lib::lemma_int_range(0, n);
    assert(vstd::relations::injective_on(f, dom));
    vstd::set_lib::lemma_map_size(dom, img, f);
    assert forall|y: int| img.contains(y) implies vstd::set_lib::set_int_range(0, n).contains(
        y,
    ) by {
        let j = choose|j: int| dom.contains(j) && f(j) == y;
        assert((e[j] as nat) < sup.len());
    }
    assert(img.subset_of(vstd::set_lib::set_int_range(0, n)));
    vstd::set_lib::lemma_subset_equality(img, vstd::set_lib::set_int_range(0, n));
    assert forall|s: nat| s < sup.len() implies claims_pos(e, s) by {
        assert(img.contains(s as int));
        let j = choose|j: int| dom.contains(j) && f(j) == s as int;
        assert(0 <= j < e.len() && e[j] as nat == s);
    }
}

/// Composing an embedding of `a` into `b` with one of `b` back into `a`
/// returns every tag to where it started.
pub proof fn lemma_reorganize_round_trip(
    e: Seq<u8>,
    e2: Seq<u8>,
    a: Seq<u64>,
    b: Seq<u64>,
    t: nat,
)
    requires
        embeds(e, a, b),
        embeds(e2, b, a),
        tags_wf(a),
        tags_wf(b),
        t < a.len(),
    ensures
        (e[t as int] as nat) < b.len(),
        (e2[e[t as int] as int] as nat) < a.len(),
        e2[e[t as int] as int] as nat == t,
{
    assert((e[t as int] as nat) < b.len() && b[e[t as int] as int] == a[t as int]);
    let s = e[t as int] as int;
    assert((e2[s] as nat) < a.len() && a[e2[s] as int] == b[s]);
    let u = e2[s] as int;
    if u != t {
        assert(a[u] != a[t as int]);
    }
}

/// Tags of two unions holding the same active type agree once both lists are
/// embedded into one common ordering.
pub proof fn lemma_common_order_tags_agree(
    ea: Seq<u8>,
    eb: Seq<u8>,
    a: Seq<u64>,
    b: Seq<u64>,
    c: Seq<u64>,
    ta: nat,
    tb: nat,
)
    requires
        embeds(ea, a, c),
        embeds(eb, b, c),
        tags_wf(c),
        ta < a.len(),
        tb < b.len(),
        a[ta as int] == b[tb as int],
    ensures
        ea[ta as int] == eb[tb as int],
{
    let sa = ea[ta as int] as int;
    let sb = eb[tb as int] as int;
    assert(c[sa] == a[ta as int]);
    assert(c[sb] == b[tb as int]);
    if sa != sb {
        assert(c[sa] != c[sb]);
    }
}

} // verus!
