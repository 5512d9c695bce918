use lazy_boone::movement::{pick_index, pick_random, random_index, Memory, Planet, PlanetContent, PlanetStatus, ScoutStep, Thrusters, Trip, TripStep};
use lazy_boone::resources::AnyResource;
use lazy_boone::InterruptOrder;

/// Planet 2 produces oxygen and neighbours planet 1; planet 1 neighbours
/// planet 2 and produces nothing. The explorer ends on planet 1.
fn two_planets() -> Memory {
    let mut m = Memory::new(2);
    m.insert_planet(2);
    m.explore(vec![1], vec![AnyResource::Oxygen]);
    m.override_current_id(1);
    m.insert_planet(1);
    m.explore(vec![2], Vec::new());
    m
}

#[test]
fn products_are_zero_jumps_away() {
    let mut m = Memory::new(5);
    m.insert_planet(5);
    m.explore(vec![6, 7], vec![AnyResource::Water, AnyResource::Carbon]);
    assert_eq!(m.dist_from_here(AnyResource::Water), Some(0));
    assert_eq!(m.dist_from_here(AnyResource::Carbon), Some(0));
    assert_eq!(m.dist_from_here(AnyResource::Oxygen), None);
    assert_eq!(m.get_current_id(), 5);
    assert_eq!(m.path_sanity(5, AnyResource::Water), Some(Vec::new()));
}

#[test]
fn weights_are_one_more_than_the_best_neighbour() {
    let mut m = two_planets();
    assert_eq!(m.dist_from_here(AnyResource::Oxygen), Some(1));
    assert_eq!(m.get_dist(1, AnyResource::Oxygen), Some(1));
    assert_eq!(m.get_dist(2, AnyResource::Oxygen), Some(0));
    assert_eq!(m.get_dist(2, AnyResource::Hydrogen), None);
}

#[test]
fn path_follows_the_weights_down() {
    let mut m = two_planets();
    assert_eq!(m.path_sanity(1, AnyResource::Oxygen), Some(vec![2]));
    let mut t = Thrusters::new(m);
    assert_eq!(t.make_path(AnyResource::Oxygen), Some(vec![2]));
}

#[test]
fn path_takes_the_shortest_way() {
    // planet 10 produces carbon; 11 and 12 neighbour it and each other
    let mut m = Memory::new(10);
    m.insert_planet(10);
    m.explore(vec![11, 12], vec![AnyResource::Carbon]);
    m.override_current_id(11);
    m.insert_planet(11);
    m.explore(vec![10, 12], Vec::new());
    m.override_current_id(12);
    m.insert_planet(12);
    m.explore(vec![11, 10], Vec::new());
    assert_eq!(m.dist_after_update(12, AnyResource::Carbon), Some(1));
    assert_eq!(m.get_dist(12, AnyResource::Carbon), Some(1));
    assert_eq!(m.path_sanity(12, AnyResource::Carbon), Some(vec![10]));
}

#[test]
fn forgetting_a_planet() {
    let mut m = two_planets();
    m.forget_planet(1);
    m.override_current_id(2);
    // planet 2's list loses its trailing 1; its table stays
    assert_eq!(m.dist_from_here(AnyResource::Oxygen), Some(0));
    m.update_planet(2);
    assert_eq!(m.dist_from_here(AnyResource::Oxygen), Some(0));
    assert_eq!(m.dist_from_here(AnyResource::Water), None);
}

#[test]
fn which_planets_can_be_forgotten() {
    let m = two_planets();
    assert!(m.can_forget(1));
    assert!(m.can_forget(2));
    assert!(!m.can_forget(9));
    // planet 4 lists 3 before 5, so 3 cannot be taken out of its list
    let mut m = Memory::new(3);
    m.insert_planet(3);
    m.explore(vec![4], Vec::new());
    m.override_current_id(4);
    m.insert_planet(4);
    m.explore(vec![3, 5], Vec::new());
    assert!(!m.can_forget(3));
    assert!(m.can_forget(4));
    // planet 5 is known but has no weights
    assert!(!m.can_forget(5));
}

#[test]
fn when_a_planet_can_be_explored() {
    let m = Memory::new(5);
    // the current planet is neither known nor among the neighbours
    assert!(!m.can_explore(&vec![6], &Vec::new()));
    assert!(m.can_explore(&vec![6, 5], &Vec::new()));
    // products need a weight table here
    assert!(!m.can_explore(&vec![5], &vec![AnyResource::Water]));
    let mut m = Memory::new(5);
    m.insert_planet(5);
    assert!(m.can_explore(&vec![6], &vec![AnyResource::Water]));
    let m = two_planets();
    assert!(m.can_explore(&vec![3], &vec![AnyResource::Carbon]));
}

#[test]
fn which_planets_can_be_brought_up_to_date() {
    let mut m = two_planets();
    assert!(m.can_update(1));
    assert!(m.can_update(2));
    assert!(!m.can_update(4));
    m.insert_planet(4);
    // planet 4 is known but unexplored
    assert!(!m.can_update(4));
}

#[test]
fn scouting_needs_known_neighbours() {
    let m = two_planets();
    let t = Thrusters::new(m);
    // oxygen has a weight here: the exploration is over at once
    assert!(t.can_scout(AnyResource::Oxygen, 0));
    // water has none, and every neighbour is explored and known
    assert!(t.can_scout(AnyResource::Water, 0));
    assert!(!t.can_scout(AnyResource::Water, -1));
    // a lone planet with no neighbour cannot pick a random one
    let mut m = Memory::new(7);
    m.insert_planet(7);
    m.explore(Vec::new(), Vec::new());
    let t = Thrusters::new(m);
    assert!(!t.can_scout(AnyResource::Water, 0));
    assert!(t.can_scout(AnyResource::Water, 31));
}

#[test]
fn forget_all_keeps_the_current_planet() {
    let mut m = two_planets();
    m.forget_all();
    assert_eq!(m.get_current_id(), 1);
}

#[test]
fn a_trip_counts_granted_moves() {
    let mut trip = Trip::new(vec![2, 3, 4]);
    assert!(matches!(trip.next(), TripStep::Request(2)));
    trip.record(Ok(()));
    assert!(matches!(trip.next(), TripStep::Request(3)));
    trip.record(Err(InterruptOrder::Stop));
    assert!(matches!(trip.next(), TripStep::Done(Err((InterruptOrder::Stop, 1)))));
}

#[test]
fn a_finished_trip_reports_its_length() {
    let mut trip = Trip::new(vec![8]);
    trip.record(Ok(()));
    assert!(matches!(trip.next(), TripStep::Done(Ok(1))));
    let empty = Trip::new(Vec::new());
    assert!(matches!(empty.next(), TripStep::Done(Ok(0))));
}

#[test]
fn scouting_prefers_an_unexplored_neighbour() {
    let t = Thrusters::new(two_planets());
    // oxygen is known from planet 1
    assert!(matches!(t.scout_step(AnyResource::Oxygen, 0), ScoutStep::Finished(0)));
    // water is not; planet 2 is explored, so a random neighbour is drawn
    match t.scout_step(AnyResource::Water, 3) {
        ScoutStep::Random(p, n, d) => {
            assert_eq!(p, 2);
            assert_eq!(n, 4);
            assert_eq!(pick_index(d, 1), Some(0));
        }
        ScoutStep::Stuck(n, d) => {
            assert_eq!(n, 4);
            assert_eq!(pick_index(d, 1), None);
        }
        _ => panic!("unexpected step"),
    }
    // the budget is spent
    assert!(matches!(t.scout_step(AnyResource::Water, 31), ScoutStep::Finished(31)));

    let mut m = Memory::new(5);
    m.insert_planet(5);
    m.explore(vec![6, 7], vec![AnyResource::Water]);
    let t = Thrusters::new(m);
    assert!(matches!(t.scout_step(AnyResource::Robot, 0), ScoutStep::Unexplored(6, 1)));
}

#[test]
fn refused_scouting_moves() {
    let mut t = Thrusters::new(two_planets());
    assert_eq!(t.scout_random_outcome(2, Ok(()), 4), None);
    assert_eq!(t.scout_random_outcome(2, Err(InterruptOrder::Reset), 4), Some((InterruptOrder::Reset, 4)));
    assert_eq!(t.scout_unexplored_refused(2, InterruptOrder::Stop, 3), (InterruptOrder::Stop, 2));
}

#[test]
fn random_index_is_the_remainder() {
    assert_eq!(random_index(7, 3), 1);
    assert_eq!(random_index(-3, 3), 0);
    assert_eq!(random_index(0, 1), 0);
}

#[test]
fn updating_twice_changes_nothing_more() {
    let mut m = two_planets();
    m.update_planet(1);
    let first = m.dist_from_here(AnyResource::Oxygen);
    m.update_planet(1);
    assert_eq!(m.dist_from_here(AnyResource::Oxygen), first);
    assert_eq!(first, Some(1));
}

#[test]
fn planets_and_their_content() {
    let mut p = Planet::new(4);
    assert_eq!(p.id, 4);
    assert!(p.cont.get_content().is_none());
    p.explored(PlanetContent::new(vec![AnyResource::Life]));
    assert_eq!(p.cont.get_content(), Some(&vec![AnyResource::Life]));
    assert!(matches!(p.cont, PlanetStatus::Explored(_)));
    assert!(p.destroy().is_empty());
}

#[test]
fn products_are_kept_once() {
    let c = PlanetContent::new(vec![AnyResource::Life, AnyResource::Water, AnyResource::Life, AnyResource::Water]);
    assert_eq!(c.get_products(), &vec![AnyResource::Life, AnyResource::Water]);
    assert!(PlanetContent::new(Vec::new()).get_products().is_empty());
}

#[test]
fn picking_an_index_from_a_draw() {
    assert_eq!(pick_index(7, 3), Some(1));
    assert_eq!(pick_index(-6, 3), Some(0));
    assert_eq!(pick_index(-7, 3), None);
    assert_eq!(pick_index(i32::MIN, 5), None);
    let (draw, k) = pick_random(4);
    assert_eq!(k, pick_index(draw, 4));
}

/// Planet 1 lists `adj`; 2 is unexplored, 3 was forgotten.
fn unknown_neighbour(adj: Vec<u32>) -> Thrusters {
    let mut m = Memory::new(1);
    m.insert_planet(1);
    m.explore(adj, Vec::new());
    m.insert_planet(3);
    m.forget_planet(3);
    Thrusters::new(m)
}

#[test]
fn scouting_looks_no_further_than_the_first_unexplored() {
    // the unknown planet 3 comes after the unexplored planet 2
    let t = unknown_neighbour(vec![2, 3]);
    assert!(t.can_scout(AnyResource::Water, 0));
    assert!(matches!(t.scout_step(AnyResource::Water, 0), ScoutStep::Unexplored(2, 1)));
    // the unknown planet 3 is looked up first
    let t = unknown_neighbour(vec![3, 2]);
    assert!(!t.can_scout(AnyResource::Water, 0));
}

#[test]
fn knowing_planets_and_tables() {
    let mut m = Memory::new(2);
    assert!(!m.has_weights(2));
    m.insert_planet(2);
    m.explore(vec![1], vec![AnyResource::Oxygen]);
    assert!(!m.has_weights(1));
    assert!(m.has_weights(2));
}
