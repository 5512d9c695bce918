use lazy_boone::communication::{
    adjs_outcome, craft_checked, craft_request, move_outcome, poll_outcome, products_of, CraftRequest, OrchestratorReply,
};
use lazy_boone::items::Inventory;
use lazy_boone::resources::{AnyResource, BasicKind, ComplexKind, ResourceKind};
use lazy_boone::{ai_end, AiEnd, InterruptOrder};

#[test]
fn neighbours_reply() {
    assert_eq!(adjs_outcome(OrchestratorReply::Neighbours(vec![4, 7])), Ok(vec![4, 7]));
    assert_eq!(adjs_outcome(OrchestratorReply::Reset), Err(InterruptOrder::Reset));
    assert_eq!(adjs_outcome(OrchestratorReply::Stop), Err(InterruptOrder::Stop));
    assert_eq!(adjs_outcome(OrchestratorReply::Kill), Err(InterruptOrder::Die));
}

#[test]
fn travel_reply() {
    assert_eq!(move_outcome(OrchestratorReply::MoveToPlanet { granted: true, planet_id: 9 }), Ok(9));
    assert_eq!(
        move_outcome(OrchestratorReply::MoveToPlanet { granted: false, planet_id: 9 }),
        Err(InterruptOrder::NoOrder)
    );
    assert_eq!(move_outcome(OrchestratorReply::Kill), Err(InterruptOrder::Die));
    assert_eq!(move_outcome(OrchestratorReply::Reset), Err(InterruptOrder::Reset));
    assert_eq!(move_outcome(OrchestratorReply::Stop), Err(InterruptOrder::Stop));
}

#[test]
fn polling() {
    assert_eq!(poll_outcome(None), Ok(()));
    assert_eq!(poll_outcome(Some(OrchestratorReply::Kill)), Err(InterruptOrder::Die));
    assert_eq!(poll_outcome(Some(OrchestratorReply::Reset)), Err(InterruptOrder::Reset));
    assert_eq!(poll_outcome(Some(OrchestratorReply::Stop)), Err(InterruptOrder::Stop));
}

#[test]
fn interruptions_end_the_ai() {
    assert_eq!(ai_end(InterruptOrder::NoOrder), None);
    assert_eq!(ai_end(InterruptOrder::Reset), Some(AiEnd::Reset));
    assert_eq!(ai_end(InterruptOrder::Stop), Some(AiEnd::Stop));
    assert_eq!(ai_end(InterruptOrder::Die), Some(AiEnd::Kill));
}

#[test]
fn products_are_combinations_then_generations_each_once() {
    let p = products_of(
        &vec![BasicKind::Oxygen, BasicKind::Carbon],
        &vec![ComplexKind::Water, ComplexKind::Water],
    );
    assert_eq!(p, vec![AnyResource::Water, AnyResource::Oxygen, AnyResource::Carbon]);
    assert!(products_of(&Vec::new(), &Vec::new()).is_empty());
}

#[test]
fn crafting_water_takes_hydrogen_then_oxygen() {
    let o = ResourceKind::Basic(BasicKind::Oxygen);
    let h = ResourceKind::Basic(BasicKind::Hydrogen);
    let mut bag = Inventory::new(vec![o, h]);
    let req = craft_request(&mut bag, ComplexKind::Water);
    assert_eq!(req, Some(CraftRequest { target: ComplexKind::Water, first: h, second: o }));
    assert!(bag.get_bag().is_empty());
}

#[test]
fn crafting_without_inputs_asks_nothing() {
    let c = ResourceKind::Basic(BasicKind::Carbon);
    let mut bag = Inventory::new(vec![c]);
    assert_eq!(craft_request(&mut bag, ComplexKind::Diamond), None);
    assert_eq!(craft_request(&mut bag, ComplexKind::Life), None);
    assert_eq!(*bag.get_bag(), vec![c]);
}

#[test]
fn crafting_an_ai_partner() {
    let robot = ResourceKind::Complex(ComplexKind::Robot);
    let diamond = ResourceKind::Complex(ComplexKind::Diamond);
    let o = ResourceKind::Basic(BasicKind::Oxygen);
    let mut bag = Inventory::new(vec![o, diamond, robot]);
    let req = craft_request(&mut bag, ComplexKind::AIPartner);
    assert_eq!(req, Some(CraftRequest { target: ComplexKind::AIPartner, first: robot, second: diamond }));
    assert_eq!(*bag.get_bag(), vec![o]);
}

#[test]
fn which_bags_a_craft_request_can_use() {
    let o = ResourceKind::Basic(BasicKind::Oxygen);
    let h = ResourceKind::Basic(BasicKind::Hydrogen);
    let c = ResourceKind::Basic(BasicKind::Carbon);
    // water takes hydrogen, then oxygen, each from the end of the bag
    assert!(craft_checked(&Inventory::new(vec![c, o, h]), ComplexKind::Water));
    assert!(!craft_checked(&Inventory::new(vec![h, o]), ComplexKind::Water));
    assert!(!craft_checked(&Inventory::new(vec![h, o, h]), ComplexKind::Water));
    // without the inputs there is nothing to take, and nothing fails
    assert!(craft_checked(&Inventory::new(vec![c]), ComplexKind::Water));
    // a diamond's two carbons: the first one met is not last in the bag
    assert!(!craft_checked(&Inventory::new(vec![c, c]), ComplexKind::Diamond));
    assert!(craft_checked(&Inventory::new(vec![c, o]), ComplexKind::Diamond));
    assert!(Inventory::new(vec![o, h]).can_take_pair(h, o));
    assert!(!Inventory::new(vec![h]).can_take_pair(h, o));
}
