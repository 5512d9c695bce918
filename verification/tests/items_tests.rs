use lazy_boone::items::Inventory;
use lazy_boone::resources::{BasicKind, ComplexKind, ResourceKind};

const O: ResourceKind = ResourceKind::Basic(BasicKind::Oxygen);
const H: ResourceKind = ResourceKind::Basic(BasicKind::Hydrogen);
const C: ResourceKind = ResourceKind::Basic(BasicKind::Carbon);
const WATER: ResourceKind = ResourceKind::Complex(ComplexKind::Water);

#[test]
fn putting_away_adds_one_of_the_kind() {
    let mut inv = Inventory::new(vec![O, C]);
    assert_eq!(inv.has_resource(O), 1);
    inv.put_in_bag(O);
    assert_eq!(inv.has_resource(O), 2);
    assert_eq!(inv.has_resource(C), 1);
    assert_eq!(inv.has_resource(H), 0);
    assert_eq!(inv.get_bag().len(), 3);
}

#[test]
fn taking_a_basic_resource_that_stands_last() {
    let mut inv = Inventory::new(vec![WATER, H, O]);
    assert_eq!(inv.get_basic(BasicKind::Oxygen), Some(O));
    assert_eq!(*inv.get_bag(), vec![WATER, H]);
}

#[test]
fn taking_a_basic_resource_that_is_missing() {
    let mut inv = Inventory::new(vec![WATER, H]);
    assert_eq!(inv.get_basic(BasicKind::Carbon), None);
    assert_eq!(*inv.get_bag(), vec![WATER, H]);
}

#[test]
fn taking_a_complex_resource() {
    let mut inv = Inventory::new(vec![O, WATER]);
    assert_eq!(inv.get_complex(ComplexKind::Water), Some(WATER));
    assert_eq!(*inv.get_bag(), vec![O]);
    assert_eq!(inv.get_complex(ComplexKind::Life), None);
    assert_eq!(*inv.get_bag(), vec![O]);
}

#[test]
fn taking_from_an_empty_bag() {
    let mut inv = Inventory::new(Vec::new());
    assert_eq!(inv.get_basic(BasicKind::Silicon), None);
    assert_eq!(inv.get_complex(ComplexKind::Robot), None);
    assert_eq!(inv.has_resource(O), 0);
}
