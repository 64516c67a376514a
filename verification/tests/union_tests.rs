use ptr_union::copy_ptr_union::CopyPtrUnion;
use ptr_union::raw_ptr_union::RawPtrUnion;
use ptr_union::embedding::Embedding;
use ptr_union::variant_list::VariantList;
use ptr_union::TypedPtr;

// Type identities standing for the pointer types of the scenarios.
const TY_REF_U32: u64 = 1;
const TY_REF_I32: u64 = 2;
const TY_MUT_I32: u64 = 3;
const TY_REF_U8: u64 = 4;

fn list(ids: &[u64]) -> VariantList {
    VariantList::new(ids.to_vec()).unwrap()
}

#[test]
fn test_subset_superset() {
    // a `&u32` payload: a word-aligned nonzero address of type `&u32`
    let a = TypedPtr { addr: 0x1000, ty: TY_REF_U32 };

    let vl = list(&[TY_REF_U32, TY_REF_I32, TY_MUT_I32, TY_REF_U8]);
    let x = CopyPtrUnion::new(&vl, a, 0);
    assert!(x.is(&vl, vl.position_of(TY_REF_U32).unwrap()));

    let sub = list(&[TY_REF_U32, TY_REF_I32]);
    let emb = Embedding::derive(&sub, &vl).unwrap();
    let y = x.try_to_subset(&vl, &sub, &emb).ok().unwrap();
    assert!(y.is(&sub, sub.position_of(TY_REF_U32).unwrap()));

    let sub_swapped = list(&[TY_REF_I32, TY_REF_U32]);
    let emb = Embedding::derive(&sub_swapped, &vl).unwrap();
    let y = x.try_to_subset(&vl, &sub_swapped, &emb).ok().unwrap();
    assert!(y.is(&sub_swapped, sub_swapped.position_of(TY_REF_U32).unwrap()));

    let reordered = list(&[TY_REF_I32, TY_REF_U8, TY_REF_U32, TY_MUT_I32]);
    let emb = Embedding::derive(&vl, &reordered).unwrap();
    let x = x.reorganize(&vl, &reordered, &emb);
    assert!(x.is(&reordered, reordered.position_of(TY_REF_U32).unwrap()));
}

#[test]
fn test_not_included_in_subset() {
    // a `&u32` payload pointing at a `u32` holding 10
    let _pointee: u32 = 10;
    let a = TypedPtr { addr: 0x2000, ty: TY_REF_U32 };

    let vl = list(&[TY_REF_U32, TY_MUT_I32, TY_REF_I32, TY_REF_U8]);
    let x = CopyPtrUnion::new(&vl, a, 0);
    assert!(x.is(&vl, vl.position_of(TY_REF_U32).unwrap()));

    let sub = list(&[TY_REF_U8, TY_REF_I32]);
    let emb = Embedding::derive(&sub, &vl).unwrap();
    let y = x.try_to_subset(&vl, &sub, &emb);
    let y = y.err().unwrap();

    // the rejected value is carried over the Remaining list without loss
    let rem = emb.remaining_list(&vl);
    assert!(y.is(&rem, rem.position_of(TY_REF_U32).unwrap()));
    let y = y.take(&rem, rem.position_of(TY_REF_U32).unwrap()).ok().unwrap();

    // same payload identity as `a`
    assert!(y.addr == a.addr && y.ty == a.ty);
}

#[test]
fn round_trip_from_raw_split() {
    let vl = list(&[TY_REF_U32, TY_REF_I32, TY_MUT_I32]);
    // arity 3: mask 3, so the address must be a multiple of 4
    let u = RawPtrUnion::from_raw(&vl, 0x20, 2);
    let (addr, tag) = u.split(&vl);
    assert_eq!(addr, 0x20);
    assert_eq!(tag, 2);
}

#[test]
fn alignment_boundary_rejected() {
    let vl = list(&[TY_REF_U32, TY_REF_I32, TY_MUT_I32, TY_REF_U8]);
    // arity 4: mask 3; an address with a nonzero bit inside the mask fails
    assert!(RawPtrUnion::try_from_raw(&vl, 0x1001, 0).is_err());
    assert!(RawPtrUnion::try_from_raw(&vl, 0x1002, 0).is_err());
    assert!(RawPtrUnion::try_from_raw(&vl, 0x1003, 0).is_err());
    // the same address with the mask bits clear is accepted, never truncated
    let u = RawPtrUnion::try_from_raw(&vl, 0x1004, 3).ok().unwrap();
    let (addr, tag) = u.split(&vl);
    assert_eq!(addr, 0x1004);
    assert_eq!(tag, 3);
}

#[test]
fn widening_can_demand_more_alignment() {
    // a single-variant list has mask 0, so any nonzero address fits
    let single = list(&[TY_REF_U8]);
    let p = TypedPtr { addr: 0x3, ty: TY_REF_U8 };
    let x = CopyPtrUnion::new(&single, p, 0);

    // widening to arity 4 (mask 3) demands two clear low bits: 0x3 has none
    let four = list(&[TY_REF_U32, TY_REF_I32, TY_MUT_I32, TY_REF_U8]);
    let emb = Embedding::derive(&single, &four).unwrap();
    assert!(x.try_to_superset(&single, &four, &emb).is_err());

    // an aligned payload widens fine and keeps its identity
    let q = TypedPtr { addr: 0x8, ty: TY_REF_U8 };
    let x = CopyPtrUnion::new(&single, q, 0);
    let w = x.try_to_superset(&single, &four, &emb).ok().unwrap();
    assert!(w.is(&four, four.position_of(TY_REF_U8).unwrap()));
}

#[test]
fn superset_then_subset_recovers_value() {
    let sub = list(&[TY_REF_U32, TY_REF_I32]);
    let sup = list(&[TY_REF_U8, TY_REF_I32, TY_MUT_I32, TY_REF_U32]);
    let emb = Embedding::derive(&sub, &sup).unwrap();

    let p = TypedPtr { addr: 0x40, ty: TY_REF_I32 };
    let x = CopyPtrUnion::new(&sub, p, 1);
    let wide = x.to_superset(&sub, &sup, &emb);
    assert!(wide.is(&sup, sup.position_of(TY_REF_I32).unwrap()));

    let back = wide.try_to_subset(&sup, &sub, &emb).ok().unwrap();
    assert!(CopyPtrUnion::ptr_eq(&back, &x));
    assert_eq!(back.tag(&sub), 1);
}

#[test]
fn reorganize_is_invertible() {
    let a = list(&[TY_REF_U32, TY_REF_I32, TY_MUT_I32, TY_REF_U8]);
    let b = list(&[TY_REF_U8, TY_MUT_I32, TY_REF_I32, TY_REF_U32]);
    let ab = Embedding::derive(&a, &b).unwrap();
    let ba = Embedding::derive(&b, &a).unwrap();

    let p = TypedPtr { addr: 0x7c, ty: TY_MUT_I32 };
    let x = CopyPtrUnion::new(&a, p, 2);
    let y = x.reorganize(&a, &b, &ab);
    assert_eq!(y.tag(&b), 1);
    let z = y.reorganize(&b, &a, &ba);
    assert!(CopyPtrUnion::ptr_eq(&z, &x));
    assert_eq!(z.tag(&a), 2);
}

#[test]
fn order_independent_equality() {
    let a = list(&[TY_REF_U32, TY_REF_I32]);
    let b = list(&[TY_REF_I32, TY_REF_U32]);
    let c = list(&[TY_MUT_I32, TY_REF_U32, TY_REF_I32]);

    // the same payload held through two differently-ordered lists
    let p = TypedPtr { addr: 0x90, ty: TY_REF_U32 };
    let x = CopyPtrUnion::new(&a, p, 0);
    let y = CopyPtrUnion::new(&b, p, 1);
    assert_eq!(x.tag(&a), 0);
    assert_eq!(y.tag(&b), 1);

    // reorganized into a common order they are equal by address identity
    let ac = Embedding::derive(&a, &c).unwrap();
    let bc = Embedding::derive(&b, &c).unwrap();
    let xc = x.to_superset(&a, &c, &ac);
    let yc = y.to_superset(&b, &c, &bc);
    assert!(CopyPtrUnion::ptr_eq(&xc, &yc));
    assert_eq!(xc.tag(&c), yc.tag(&c));
}

#[test]
fn tag_renumbering_formulas() {
    let sup = list(&[10, 20, 30, 40, 50]);
    let sub = list(&[20, 40]);
    let emb = Embedding::derive(&sub, &sup).unwrap();

    // subset tags widen to their claimed superset positions
    assert_eq!(emb.map_tag_to_superset(0), 1);
    assert_eq!(emb.map_tag_to_superset(1), 3);

    // claimed superset tags narrow to subset tags; unclaimed ones renumber
    // into the Remaining list by subtracting the claimed positions below
    assert_eq!(emb.try_map_tag_to_subset(0), Err(0));
    assert_eq!(emb.try_map_tag_to_subset(1), Ok(0));
    assert_eq!(emb.try_map_tag_to_subset(2), Err(1));
    assert_eq!(emb.try_map_tag_to_subset(3), Ok(1));
    assert_eq!(emb.try_map_tag_to_subset(4), Err(2));

    let rem = emb.remaining_list(&sup);
    assert_eq!(rem.len(), 3);
    assert_eq!(rem.get(0), 10);
    assert_eq!(rem.get(1), 30);
    assert_eq!(rem.get(2), 50);
}

#[test]
fn masks_follow_arity() {
    assert_eq!(list(&[1]).mask(), 0);
    assert_eq!(list(&[1, 2]).mask(), 1);
    assert_eq!(list(&[1, 2, 3]).mask(), 3);
    assert_eq!(list(&[1, 2, 3, 4]).mask(), 3);
    assert_eq!(list(&[1, 2, 3, 4, 5]).mask(), 7);
    let many: Vec<u64> = (0..255).collect();
    assert_eq!(VariantList::new(many).unwrap().mask(), 255);
}

#[test]
fn duplicate_or_oversized_lists_rejected() {
    assert!(VariantList::new(vec![1, 2, 1]).is_none());
    let too_many: Vec<u64> = (0..256).collect();
    assert!(VariantList::new(too_many).is_none());
    let ok = VariantList::new(vec![1, 2, 3]).unwrap();
    assert_eq!(ok.len(), 3);
    assert!(ok.position_of(9).is_none());
}

#[test]
fn cast_unpack_and_hash() {
    let vl = list(&[TY_REF_U32, TY_REF_I32]);
    let p = TypedPtr { addr: 0x100, ty: TY_REF_I32 };
    let x = CopyPtrUnion::new(&vl, p, 1);

    assert!(x.try_cast(&vl, 0).is_none());
    let q = x.try_cast(&vl, 1).unwrap();
    assert!(q.addr == 0x100 && q.ty == TY_REF_I32);

    let u = x.unpack(&vl);
    assert!(u.addr == 0x100 && u.ty == TY_REF_I32);

    // the hash identity is the packed word: address plus tag
    assert_eq!(CopyPtrUnion::ptr_hash(&x), 0x100 + 1);

    // the visitor dispatch reaches the active variant's erased address
    assert_eq!(x.map_any(&vl, ptr_union::ErasedAddr), 0x100);
}

#[test]
fn take_walks_every_variant() {
    let vl = list(&[TY_REF_U32, TY_REF_I32, TY_REF_U8]);
    let p = TypedPtr { addr: 0xa0, ty: TY_REF_U8 };
    let x = CopyPtrUnion::new(&vl, p, 2);

    // trying the wrong type hands the value back over the shrunken list
    let x = x.take(&vl, 0).err().unwrap();
    let rem = vl.remove_at(0);
    assert!(x.is(&rem, rem.position_of(TY_REF_U8).unwrap()));

    let x = x.take(&rem, 0).err().unwrap();
    let rem2 = rem.remove_at(0);
    assert!(x.is(&rem2, rem2.position_of(TY_REF_U8).unwrap()));

    // one variant left: into_inner decodes it unconditionally
    let got = x.into_inner(&rem2);
    assert!(got.addr == 0xa0 && got.ty == TY_REF_U8);
}

#[test]
fn set_overwrites_copy_union() {
    let vl = list(&[TY_REF_U32, TY_REF_I32]);
    let p = TypedPtr { addr: 0x30, ty: TY_REF_U32 };
    let q = TypedPtr { addr: 0x54, ty: TY_REF_I32 };
    let mut x = CopyPtrUnion::new(&vl, p, 0);
    assert_eq!(x.tag(&vl), 0);
    x.set(&vl, q, 1);
    assert_eq!(x.tag(&vl), 1);
    let got = x.unpack(&vl);
    assert!(got.addr == 0x54 && got.ty == TY_REF_I32);
}

#[test]
fn missing_type_has_no_embedding() {
    let sub = list(&[TY_REF_U32, TY_MUT_I32]);
    let sup = list(&[TY_REF_U32, TY_REF_I32, TY_REF_U8]);
    assert!(Embedding::derive(&sub, &sup).is_none());
}

#[test]
fn validate_tag_bounds() {
    let vl = list(&[TY_REF_U32, TY_REF_I32, TY_MUT_I32]);
    assert!(RawPtrUnion::validate_tag(&vl, 0));
    assert!(RawPtrUnion::validate_tag(&vl, 2));
    assert!(!RawPtrUnion::validate_tag(&vl, 3));
    assert!(!RawPtrUnion::validate_tag(&vl, 255));
}
