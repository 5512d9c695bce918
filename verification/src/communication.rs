//! What the explorer makes of the messages it exchanges with the
//! orchestrator and with planets, and what it hands a planet to craft.
use vstd::prelude::*;
use crate::resources::{AnyResource, BasicKind, ComplexKind, ResourceKind, basic_to_any, complex_to_any};
use crate::items::{Inventory, count_of, take_ok, taken, after_take};
use crate::decisionmaking::{Plan, action_kind, plan_ready, plan_wf, recipe};
use crate::InterruptOrder;

verus! {

/// A message from the orchestrator, as far as the explorer reads it.
pub enum OrchestratorReply {
    /// The planets the explorer can travel to.
    Neighbours(Vec<u32>),
    /// The answer to a travel request: whether a way to the planet came with it.
    MoveToPlanet { granted: bool, planet_id: u32 },
    Reset,
    Stop,
    Kill,
    /// Any other message.
    Other,
}

/// The neighbours the orchestrator reported, or the order it sent instead.
pub fn adjs_outcome(reply: OrchestratorReply) -> (r: Result<Vec<u32>, InterruptOrder>)
    requires
        !(reply is Other),
        !(reply is MoveToPlanet),
    ensures
        match reply {
            OrchestratorReply::Neighbours(n) => r matches Ok(v) && v@ == n@,
            OrchestratorReply::Reset => r == Err::<Vec<u32>, InterruptOrder>(InterruptOrder::Reset),
            OrchestratorReply::Stop => r == Err::<Vec<u32>, InterruptOrder>(InterruptOrder::Stop),
            OrchestratorReply::Kill => r == Err::<Vec<u32>, InterruptOrder>(InterruptOrder::Die),
            _ => false,
        },
{
    match reply {
        OrchestratorReply::Neighbours(neighbors) => Ok(neighbors),
        OrchestratorReply::Reset => Err(InterruptOrder::Reset),
        OrchestratorReply::Stop => Err(InterruptOrder::Stop),
        OrchestratorReply::Kill => Err(InterruptOrder::Die),
        _ => Err(InterruptOrder::NoOrder),
    }
}

/// The planet a travel request took the explorer to, or why it did not: a
/// refusal without order, or the order sent instead.
pub fn move_outcome(reply: OrchestratorReply) -> (r: Result<u32, InterruptOrder>)
    requires
        !(reply is Other),
        !(reply is Neighbours),
    ensures
        match reply {
            OrchestratorReply::MoveToPlanet { granted, planet_id } => if granted {
                r == Ok::<u32, InterruptOrder>(planet_id)
            } else {
                r == Err::<u32, InterruptOrder>(InterruptOrder::NoOrder)
            },
            OrchestratorReply::Reset => r == Err::<u32, InterruptOrder>(InterruptOrder::Reset),
            OrchestratorReply::Stop => r == Err::<u32, InterruptOrder>(InterruptOrder::Stop),
            OrchestratorReply::Kill => r == Err::<u32, InterruptOrder>(InterruptOrder::Die),
            _ => false,
        },
{
    match reply {
        OrchestratorReply::MoveToPlanet { granted, planet_id } => {
            if granted {
                Ok(planet_id)
            } else {
                Err(InterruptOrder::NoOrder)
            }
        },
        OrchestratorReply::Reset => Err(InterruptOrder::Reset),
        OrchestratorReply::Stop => Err(InterruptOrder::Stop),
        OrchestratorReply::Kill => Err(InterruptOrder::Die),
        _ => Err(InterruptOrder::NoOrder),
    }
}

/// Whether a pending message lets the explorer carry on: nothing pending, or
/// the order it carries.
pub fn poll_outcome(pending: Option<OrchestratorReply>) -> (r: Result<(), InterruptOrder>)
    requires
        pending matches Some(m) ==> (m is Reset || m is Stop || m is Kill),
    ensures
        match pending {
            None => r == Ok::<(), InterruptOrder>(()),
            Some(OrchestratorReply::Kill) => r == Err::<(), InterruptOrder>(InterruptOrder::Die),
            Some(OrchestratorReply::Reset) => r == Err::<(), InterruptOrder>(InterruptOrder::Reset),
            Some(OrchestratorReply::Stop) => r == Err::<(), InterruptOrder>(InterruptOrder::Stop),
            _ => false,
        },
{
    match pending {
        None => Ok(()),
        Some(OrchestratorReply::Kill) => Err(InterruptOrder::Die),
        Some(OrchestratorReply::Reset) => Err(InterruptOrder::Reset),
        Some(OrchestratorReply::Stop) => Err(InterruptOrder::Stop),
        Some(_) => Err(InterruptOrder::NoOrder),
    }
}

/// Adds `r` to `set` unless it is there already.
fn insert_resource(set: &mut Vec<AnyResource>, r: AnyResource)
    requires
        old(set)@.no_duplicates(),
    ensures
        final(set)@.no_duplicates(),
        final(set)@.to_set() == old(set)@.to_set().insert(r),
{
    let mut i: usize = 0;
    while i < set.len()
        invariant
            0 <= i <= set@.len(),
            set@ == old(set)@,
            set@.no_duplicates(),
            forall|j: int| 0 <= j < i ==> set@[j] != r,
        decreases set@.len() - i,
    {
        if set[i] == r {
            assert(set@.to_set().insert(r) =~= set@.to_set());
            return;
        }
        i = i + 1;
    }
    let ghost before = set@;
    set.push(r);
    assert(set@.to_set() =~= before.to_set().insert(r)) by {
        assert forall|x: AnyResource| set@.to_set().contains(x) <==> before.to_set().insert(r).contains(x) by {
            if set@.contains(x) && x != r {
                let j = choose|j: int| 0 <= j < set@.len() && set@[j] == x;
                assert(before[j] == x);
            }
            if before.contains(x) {
                let j = choose|j: int| 0 <= j < before.len() && before[j] == x;
                assert(set@[j] == x);
            }
            if x == r {
                assert(set@[before.len() as int] == r);
            }
        }
    }
}

/// Everything a planet can provide: the complex resources it combines and the
/// basic resources it generates, each once.
pub fn products_of(resource_list: &Vec<BasicKind>, combination_list: &Vec<ComplexKind>) -> (r: Vec<AnyResource>)
    ensures
        r@.no_duplicates(),
        forall|x: AnyResource| r@.contains(x) <==> (
            (exists|i: int| 0 <= i < resource_list@.len() && basic_to_any(#[trigger] resource_list@[i]) == x)
            || (exists|i: int| 0 <= i < combination_list@.len() && complex_to_any(#[trigger] combination_list@[i]) == x)
        ),
{
    let mut result: Vec<AnyResource> = Vec::new();
    let mut i: usize = 0;
    while i < combination_list.len()
        invariant
            0 <= i <= combination_list@.len(),
            result@.no_duplicates(),
            forall|x: AnyResource| result@.to_set().contains(x) <==>
                (exists|j: int| 0 <= j < i && complex_to_any(#[trigger] combination_list@[j]) == x),
        decreases combination_list@.len() - i,
    {
        let c = combination_list[i];
        insert_resource(&mut result, AnyResource::from(c));
        proof {
            assert forall|x: AnyResource| result@.to_set().contains(x) implies
                (exists|j: int| 0 <= j < i + 1 && complex_to_any(#[trigger] combination_list@[j]) == x) by {
                if x == complex_to_any(c) {
                    assert(complex_to_any(combination_list@[i as int]) == x);
                }
            }
        }
        i = i + 1;
    }
    let mut k: usize = 0;
    while k < resource_list.len()
        invariant
            0 <= k <= resource_list@.len(),
            result@.no_duplicates(),
            forall|x: AnyResource| result@.to_set().contains(x) <==> (
                (exists|j: int| 0 <= j < k && basic_to_any(#[trigger] resource_list@[j]) == x)
                || (exists|j: int| 0 <= j < combination_list@.len() && complex_to_any(#[trigger] combination_list@[j]) == x)
            ),
        decreases resource_list@.len() - k,
    {
        let b = resource_list[k];
        insert_resource(&mut result, AnyResource::from(b));
        proof {
            assert forall|x: AnyResource| result@.to_set().contains(x) implies (
                (exists|j: int| 0 <= j < k + 1 && basic_to_any(#[trigger] resource_list@[j]) == x)
                || (exists|j: int| 0 <= j < combination_list@.len() && complex_to_any(#[trigger] combination_list@[j]) == x)
            ) by {
                if x == basic_to_any(b) {
                    assert(basic_to_any(resource_list@[k as int]) == x);
                }
            }
        }
        k = k + 1;
    }
    proof {
        assert forall|x: AnyResource| result@.contains(x) == result@.to_set().contains(x) by {}
    }
    result
}

/// The request handed to a planet to craft a complex resource: the target
/// and the two resources taken out of the bag for it, in the order taken.
#[derive(Clone, Copy, Debug, PartialEq, Eq, Structural)]
pub struct CraftRequest {
    pub target: ComplexKind,
    pub first: ResourceKind,
    pub second: ResourceKind,
}

/// The two resources crafting `c` consumes, in the order they are taken.
pub open spec fn craft_inputs(c: ComplexKind) -> (ResourceKind, ResourceKind) {
    match c {
        ComplexKind::AIPartner => (ResourceKind::Complex(ComplexKind::Robot), ResourceKind::Complex(ComplexKind::Diamond)),
        ComplexKind::Diamond => (ResourceKind::Basic(BasicKind::Carbon), ResourceKind::Basic(BasicKind::Carbon)),
        ComplexKind::Dolphin => (ResourceKind::Complex(ComplexKind::Water), ResourceKind::Complex(ComplexKind::Life)),
        ComplexKind::Robot => (ResourceKind::Basic(BasicKind::Silicon), ResourceKind::Complex(ComplexKind::Life)),
        ComplexKind::Life => (ResourceKind::Complex(ComplexKind::Water), ResourceKind::Basic(BasicKind::Carbon)),
        ComplexKind::Water => (ResourceKind::Basic(BasicKind::Hydrogen), ResourceKind::Basic(BasicKind::Oxygen)),
    }
}

/// The bag holds both inputs of `c` (two of them when they are the same).
pub open spec fn craft_possible(bag: Seq<ResourceKind>, c: ComplexKind) -> bool {
    let (a, b) = craft_inputs(c);
    if a == b {
        count_of(bag, a) > 1
    } else {
        count_of(bag, a) > 0 && count_of(bag, b) > 0
    }
}

/// How many of the two items `a`, `b` are `k`.
proof fn lemma_count_two(a: ResourceKind, b: ResourceKind, k: ResourceKind)
    ensures
        count_of(seq![a, b], k) == (if a == k { 1nat } else { 0nat }) + (if b == k { 1nat } else { 0nat }),
{
    let two = seq![a, b];
    let one = seq![a];
    assert(two.drop_last() =~= one);
    assert(two.last() == b);
    assert(one.drop_last() =~= Seq::<ResourceKind>::empty());
    assert(one.last() == a);
    assert(count_of(Seq::<ResourceKind>::empty(), k) == 0);
    assert(count_of(one, k) == if a == k { 1nat } else { 0nat });
}

/// The two resources crafting `c` consumes, as a list.
pub open spec fn craft_items(c: ComplexKind) -> Seq<ResourceKind> {
    seq![craft_inputs(c).0, craft_inputs(c).1]
}

/// Law: crafting `c` takes, of each kind, as many as the recipe of `c`
/// lists, and nothing the recipe does not list.
pub proof fn lemma_craft_follows_recipe(c: ComplexKind)
    ensures
        forall|i: int| 0 <= i < recipe(ResourceKind::Complex(c)).len()
            ==> count_of(craft_items(c), #[trigger] recipe(ResourceKind::Complex(c))[i].0)
                == recipe(ResourceKind::Complex(c))[i].1,
        forall|k: ResourceKind| #[trigger] count_of(craft_items(c), k) > 0
            ==> exists|i: int| 0 <= i < recipe(ResourceKind::Complex(c)).len()
                && #[trigger] recipe(ResourceKind::Complex(c))[i].0 == k,
{
    let (a, b) = craft_inputs(c);
    let r = recipe(ResourceKind::Complex(c));
    assert(craft_items(c) == seq![a, b]);
    assert forall|i: int| 0 <= i < r.len() implies count_of(craft_items(c), #[trigger] r[i].0) == r[i].1 by {
        lemma_count_two(a, b, r[i].0);
    }
    assert forall|k: ResourceKind| #[trigger] count_of(craft_items(c), k) > 0
        implies exists|i: int| 0 <= i < r.len() && #[trigger] r[i].0 == k by {
        lemma_count_two(a, b, k);
        if r[0].0 == k {
        } else {
            assert(r[1].0 == k);
        }
    }
}

/// Law: the bag holds what crafting `c` takes exactly when a plan made for
/// `c` has its prerequisites in the bag.
pub proof fn lemma_craft_possible_when_ready(bag: Seq<ResourceKind>, p: Plan, c: ComplexKind)
    requires
        plan_wf(p),
        action_kind(p.action) == ResourceKind::Complex(c),
    ensures
        craft_possible(bag, c) <==> plan_ready(p, bag),
{
    let r = p.prerequisites@;
    assert(r == recipe(ResourceKind::Complex(c)));
    if plan_ready(p, bag) {
        assert(r[0].1 <= count_of(bag, r[0].0));
        if r.len() == 2 {
            assert(r[1].1 <= count_of(bag, r[1].0));
        }
    }
}

/// Taking the inputs of `c` out of the bag does not fail.
pub open spec fn craft_ok(bag: Seq<ResourceKind>, c: ComplexKind) -> bool {
    let (a, b) = craft_inputs(c);
    craft_possible(bag, c) ==> {
        &&& take_ok(bag, a)
        &&& taken(bag, a) is Some
        &&& take_ok(after_take(bag, a), b)
        &&& taken(after_take(bag, a), b) is Some
    }
}

/// The two resources crafting `c` consumes, in the order they are taken.
fn inputs_of(c: ComplexKind) -> (r: (ResourceKind, ResourceKind))
    ensures
        r == craft_inputs(c),
{
    match c {
        ComplexKind::AIPartner => (ResourceKind::Complex(ComplexKind::Robot), ResourceKind::Complex(ComplexKind::Diamond)),
        ComplexKind::Diamond => (ResourceKind::Basic(BasicKind::Carbon), ResourceKind::Basic(BasicKind::Carbon)),
        ComplexKind::Dolphin => (ResourceKind::Complex(ComplexKind::Water), ResourceKind::Complex(ComplexKind::Life)),
        ComplexKind::Robot => (ResourceKind::Basic(BasicKind::Silicon), ResourceKind::Complex(ComplexKind::Life)),
        ComplexKind::Life => (ResourceKind::Complex(ComplexKind::Water), ResourceKind::Basic(BasicKind::Carbon)),
        ComplexKind::Water => (ResourceKind::Basic(BasicKind::Hydrogen), ResourceKind::Basic(BasicKind::Oxygen)),
    }
}

/// Whether `craft_request` can prepare a request for `what` from this bag
/// without failing: exactly its `requires`.
pub fn craft_checked(bag: &Inventory, what: ComplexKind) -> (r: bool)
    ensures
        r == craft_ok(bag@, what),
{
    let (a, b) = inputs_of(what);
    let possible = if a == b {
        bag.has_resource(a) > 1
    } else {
        bag.has_resource(a) > 0 && bag.has_resource(b) > 0
    };
    !possible || bag.can_take_pair(a, b)
}

/// Prepares the request to craft `what`: when the bag holds its inputs, they
/// are taken out of it and put in the request; otherwise there is nothing to
/// ask and the bag is left alone.
pub fn craft_request(bag: &mut Inventory, what: ComplexKind) -> (r: Option<CraftRequest>)
    requires
        craft_ok(old(bag)@, what),
    ensures
        ({
            let (a, b) = craft_inputs(what);
            if craft_possible(old(bag)@, what) {
                &&& r == Some(CraftRequest { target: what, first: a, second: b })
                &&& final(bag)@ == after_take(after_take(old(bag)@, a), b)
            } else {
                &&& r is None
                &&& final(bag)@ == old(bag)@
            }
        }),
{
    match what {
        ComplexKind::AIPartner => {
            if bag.has_resource(ResourceKind::Complex(ComplexKind::Robot)) > 0
                && bag.has_resource(ResourceKind::Complex(ComplexKind::Diamond)) > 0 {
                let a = bag.get_complex(ComplexKind::Robot).unwrap();
                let b = bag.get_complex(ComplexKind::Diamond).unwrap();
                Some(CraftRequest { target: what, first: a, second: b })
            } else {
                None
            }
        },
        ComplexKind::Diamond => {
            if bag.has_resource(ResourceKind::Basic(BasicKind::Carbon)) > 1 {
                let a = bag.get_basic(BasicKind::Carbon).unwrap();
                let b = bag.get_basic(BasicKind::Carbon).unwrap();
                Some(CraftRequest { target: what, first: a, second: b })
            } else {
                None
            }
        },
        ComplexKind::Dolphin => {
            if bag.has_resource(ResourceKind::Complex(ComplexKind::Life)) > 0
                && bag.has_resource(ResourceKind::Complex(ComplexKind::Water)) > 0 {
                let a = bag.get_complex(ComplexKind::Water).unwrap();
                let b = bag.get_complex(ComplexKind::Life).unwrap();
                Some(CraftRequest { target: what, first: a, second: b })
            } else {
                None
            }
        },
        ComplexKind::Robot => {
            if bag.has_resource(ResourceKind::Basic(BasicKind::Silicon)) > 0
                && bag.has_resource(ResourceKind::Complex(ComplexKind::Life)) > 0 {
                let a = bag.get_basic(BasicKind::Silicon).unwrap();
                let b = bag.get_complex(ComplexKind::Life).unwrap();
                Some(CraftRequest { target: what, first: a, second: b })
            } else {
                None
            }
        },
        ComplexKind::Life => {
            if bag.has_resource(ResourceKind::Complex(ComplexKind::Water)) > 0
                && bag.has_resource(ResourceKind::Basic(BasicKind::Carbon)) > 0 {
                let a = bag.get_complex(ComplexKind::Water).unwrap();
                let b = bag.get_basic(BasicKind::Carbon).unwrap();
                Some(CraftRequest { target: what, first: a, second: b })
            } else {
                None
            }
        },
        ComplexKind::Water => {
            if bag.has_resource(ResourceKind::Basic(BasicKind::Hydrogen)) > 0
                && bag.has_resource(ResourceKind::Basic(BasicKind::Oxygen)) > 0 {
                let a = bag.get_basic(BasicKind::Hydrogen).unwrap();
                let b = bag.get_basic(BasicKind::Oxygen).unwrap();
                Some(CraftRequest { target: what, first: a, second: b })
            } else {
                None
            }
        },
    }
}

} // verus!
