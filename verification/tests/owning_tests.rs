use ptr_union::ptr_union::PtrUnion;
use ptr_union::variant_list::VariantList;
use ptr_union::TypedPtr;

const TY_BOX_A: u64 = 7;
const TY_BOX_B: u64 = 8;

fn list(ids: &[u64]) -> VariantList {
    VariantList::new(ids.to_vec()).unwrap()
}

#[test]
fn set_releases_prior_payload_exactly_once() {
    // two owned resources; the count of live, unreleased instances
    let first = TypedPtr { addr: 0x400, ty: TY_BOX_A };
    let second = TypedPtr { addr: 0x800, ty: TY_BOX_B };
    let mut live: u32 = 2;

    let vl = list(&[TY_BOX_A, TY_BOX_B]);
    let mut u = PtrUnion::new(&vl, first, 0);

    // overwriting hands the prior payload back exactly once: it is the only
    // chance to release it, and the union no longer reaches it
    let prev = u.set(&vl, second, 1);
    assert!(prev.addr == first.addr && prev.ty == first.ty);
    live -= 1;

    // consuming the union yields the other payload, once
    let got = u.take(&vl, 1).ok().unwrap();
    assert!(got.addr == second.addr && got.ty == second.ty);
    live -= 1;

    assert_eq!(live, 0);
}

#[test]
fn owning_take_carries_rejected_value() {
    let p = TypedPtr { addr: 0xc00, ty: TY_BOX_B };
    let vl = list(&[TY_BOX_A, TY_BOX_B]);
    let u = PtrUnion::new(&vl, p, 1);

    // a failed take neither loses nor duplicates the payload
    let u = u.take(&vl, 0).err().unwrap();
    let rem = vl.remove_at(0);
    assert!(u.is(&rem, 0));
    let got = u.into_inner(&rem);
    assert!(got.addr == 0xc00 && got.ty == TY_BOX_B);
}

#[test]
fn owning_peek_is_not_an_owner() {
    let p = TypedPtr { addr: 0x1c, ty: TY_BOX_A };
    let vl = list(&[TY_BOX_A]);
    let u = PtrUnion::new(&vl, p, 0);

    // unpack and try_cast only peek: the union still owns the payload
    let peek = u.unpack(&vl);
    assert!(peek.addr == 0x1c && peek.ty == TY_BOX_A);
    let cast = u.try_cast(&vl, 0).unwrap();
    assert!(cast.addr == 0x1c && cast.ty == TY_BOX_A);

    // ownership leaves exactly once, through the consuming decode
    let owned = u.into_inner(&vl);
    assert!(owned.addr == 0x1c && owned.ty == TY_BOX_A);
}

#[test]
fn owning_ptr_eq_and_tag() {
    let p = TypedPtr { addr: 0x20, ty: TY_BOX_A };
    let vl = list(&[TY_BOX_A, TY_BOX_B]);
    let u = PtrUnion::new(&vl, p, 0);
    let v = PtrUnion::new(&vl, p, 0);
    assert!(PtrUnion::ptr_eq(&u, &v));
    assert_eq!(u.tag(&vl), 0);
    assert_eq!(PtrUnion::ptr_hash(&u), 0x20);
}
