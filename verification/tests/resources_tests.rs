use lazy_boone::resources::{AnyResource, BasicKind, ComplexKind, ResourceKind};

#[test]
fn basic_kind_converts_to_flat_resource_and_back() {
    let a = AnyResource::from(BasicKind::Carbon);
    assert_eq!(a, AnyResource::Carbon);
    assert_eq!(ResourceKind::from(a), ResourceKind::Basic(BasicKind::Carbon));
}

#[test]
fn complex_kind_converts_to_flat_resource_and_back() {
    let a = AnyResource::from(ComplexKind::AIPartner);
    assert_eq!(a, AnyResource::AiPartner);
    assert_eq!(ResourceKind::from(a), ResourceKind::Complex(ComplexKind::AIPartner));
}

#[test]
fn every_resource_has_its_own_slot() {
    let all = [
        AnyResource::Oxygen,
        AnyResource::Hydrogen,
        AnyResource::Carbon,
        AnyResource::Silicon,
        AnyResource::Water,
        AnyResource::Life,
        AnyResource::Dolphin,
        AnyResource::Robot,
        AnyResource::Diamond,
        AnyResource::AiPartner,
    ];
    for (i, r) in all.iter().enumerate() {
        assert_eq!(r.index(), i);
        assert_eq!(AnyResource::from_index(i), *r);
    }
}

#[test]
fn kind_to_flat_resource() {
    assert_eq!(ResourceKind::Basic(BasicKind::Silicon).to_any(), AnyResource::Silicon);
    assert_eq!(ResourceKind::Complex(ComplexKind::Dolphin).to_any(), AnyResource::Dolphin);
    assert_eq!(ResourceKind::from(AnyResource::Diamond), ResourceKind::Complex(ComplexKind::Diamond));
}
