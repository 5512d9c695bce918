use lazy_boone::decisionmaking::{Actions, Brain, Plan, AIPARTNER_VALUE, BASIC_VALUE, WATER_VALUE};
use lazy_boone::items::Inventory;
use lazy_boone::movement::Memory;
use lazy_boone::resources::{AnyResource, BasicKind, ComplexKind, ResourceKind};
use lazy_boone::InterruptOrder;

#[test]
fn item_values() {
    assert_eq!(BASIC_VALUE, 5);
    assert_eq!(WATER_VALUE, 15);
    assert_eq!(AIPARTNER_VALUE, 55);
    assert_eq!(Actions::Grab(BasicKind::Oxygen).get_expected_score().s, 5);
    assert_eq!(Actions::Craft(ComplexKind::Diamond).get_expected_score().s, 15);
    assert_eq!(Actions::Craft(ComplexKind::Life).get_expected_score().s, 25);
    assert_eq!(Actions::Craft(ComplexKind::Dolphin).get_expected_score().s, 35);
    assert_eq!(Actions::Craft(ComplexKind::Robot).get_expected_score().s, 35);
    assert_eq!(Actions::Craft(ComplexKind::AIPartner).get_expected_score().s, 55);
    assert_eq!(Actions::Craft(ComplexKind::Water).get_resource(), AnyResource::Water);
}

#[test]
fn recipes() {
    let p = Plan::new(ResourceKind::Complex(ComplexKind::Water));
    assert_eq!(
        p.prerequisites,
        vec![
            (ResourceKind::Basic(BasicKind::Oxygen), 1),
            (ResourceKind::Basic(BasicKind::Hydrogen), 1)
        ]
    );
    assert_eq!(p.action, Actions::Craft(ComplexKind::Water));
    let d = Plan::new(ResourceKind::Complex(ComplexKind::Diamond));
    assert_eq!(d.prerequisites, vec![(ResourceKind::Basic(BasicKind::Carbon), 2)]);
    let b = Plan::new(ResourceKind::Basic(BasicKind::Silicon));
    assert!(b.prerequisites.is_empty());
    assert_eq!(b.action, Actions::Grab(BasicKind::Silicon));
}

#[test]
fn an_ai_partner_takes_eleven_plans() {
    let mut brain = Brain::new();
    brain.populate_plans();
    assert_eq!(brain.plan_count(), 11);
    assert_eq!(brain.plan_resource(0), AnyResource::Carbon);
    assert_eq!(brain.plan_resource(10), AnyResource::AiPartner);
    // plenty left: nothing is added
    brain.populate_plans();
    assert_eq!(brain.plan_count(), 11);
    brain.reset();
    assert_eq!(brain.plan_count(), 0);
    brain.populate_plans();
    assert_eq!(brain.plan_count(), 11);
    brain.clear_plans();
    assert_eq!(brain.plan_count(), 0);
}

fn home_of_basics() -> Memory {
    let mut m = Memory::new(1);
    m.insert_planet(1);
    m.explore(
        vec![],
        vec![AnyResource::Oxygen, AnyResource::Hydrogen, AnyResource::Carbon, AnyResource::Silicon],
    );
    m
}

#[test]
fn ready_plans_score_their_value_less_the_route() {
    let mut m = home_of_basics();
    let inv = Inventory::new(Vec::new());
    let grab = Plan::new(ResourceKind::Basic(BasicKind::Oxygen));
    assert_eq!(grab.get_score(&mut m, &inv).s, 5);
    let craft = Plan::new(ResourceKind::Complex(ComplexKind::Water));
    assert_eq!(craft.get_score(&mut m, &inv).s, 0);
}

#[test]
fn the_first_best_plan_is_chosen() {
    let mut m = home_of_basics();
    let inv = Inventory::new(Vec::new());
    let mut brain = Brain::new();
    brain.populate_plans();
    assert_eq!(brain.best_plan(&mut m, &inv), Some(0));
    assert_eq!(Brain::new().best_plan(&mut m, &inv), None);
}

#[test]
fn completing_a_plan() {
    let mut brain = Brain::new();
    brain.populate_plans();
    let mut inv = Inventory::new(Vec::new());
    brain.pay_moves(2);
    brain.complete_plan(0, &mut inv, ResourceKind::Basic(BasicKind::Carbon));
    assert_eq!(brain.plan_count(), 10);
    assert_eq!(inv.has_resource(ResourceKind::Basic(BasicKind::Carbon)), 1);
    assert_eq!(brain.plan_resource(0), AnyResource::Oxygen);
    brain.add_score(lazy_boone::score::Score { s: 0 });
}

#[test]
fn travelling_then_obtaining() {
    let mut brain = Brain::new();
    brain.populate_plans();
    let mut inv = Inventory::new(Vec::new());
    assert_eq!(brain.travel_outcome(0, Ok(3)), Ok(ResourceKind::Basic(BasicKind::Carbon)));
    brain.obtain_outcome(0, &mut inv, None);
    assert_eq!(brain.plan_count(), 11);
    assert_eq!(inv.has_resource(ResourceKind::Basic(BasicKind::Carbon)), 0);
    brain.obtain_outcome(0, &mut inv, Some(ResourceKind::Basic(BasicKind::Carbon)));
    assert_eq!(brain.plan_count(), 10);
    assert_eq!(inv.has_resource(ResourceKind::Basic(BasicKind::Carbon)), 1);
    assert_eq!(brain.travel_outcome(0, Err((InterruptOrder::Stop, 2))), Err(InterruptOrder::Stop));
    assert_eq!(brain.plan_count(), 10);
}

#[test]
fn score_follows_moves_and_plans() {
    let mut brain = Brain::new();
    brain.populate_plans();
    assert_eq!(brain.current_score(), 0);
    assert_eq!(brain.plan_value(0), BASIC_VALUE);
    assert_eq!(brain.plan_value(10), AIPARTNER_VALUE);
    let _ = brain.travel_outcome(0, Ok(3));
    assert_eq!(brain.current_score(), -3);
    let mut inv = Inventory::new(Vec::new());
    brain.obtain_outcome(0, &mut inv, Some(ResourceKind::Basic(BasicKind::Carbon)));
    assert_eq!(brain.current_score(), -3 + BASIC_VALUE);
}

#[test]
fn recipes_name_each_kind_once() {
    for c in [
        ComplexKind::Water,
        ComplexKind::Diamond,
        ComplexKind::Life,
        ComplexKind::Dolphin,
        ComplexKind::Robot,
        ComplexKind::AIPartner,
    ] {
        let plan = Plan::new(ResourceKind::Complex(c));
        let pre = &plan.prerequisites;
        assert!(!pre.is_empty());
        for i in 0..pre.len() {
            assert!(pre[i].1 >= 1);
            for j in (i + 1)..pre.len() {
                assert_ne!(pre[i].0, pre[j].0);
            }
        }
    }
    assert!(Plan::new(ResourceKind::Basic(BasicKind::Silicon)).prerequisites.is_empty());
}
