//! Deciding what to do next: crafting plans, what each is expected to bring,
//! and which one to pursue.
use vstd::prelude::*;
use std::collections::VecDeque;
use crate::resources::{AnyResource, BasicKind, ComplexKind, ResourceKind, any_to_kind, kind_to_any, basic_to_any, complex_to_any};
use crate::score::{Expectedscore, Score};
use crate::items::{Inventory, count_of};
use crate::movement::{Memory, Table, Planet, route_exists, route_of, settled, lemma_settled_route};
use crate::InterruptOrder;

verus! {

/// Number of moves the explorer expects a random search to take.
pub const EXPECTED_RANDOM_MOVE: usize = 15;
/// Score change of one move.
pub const MOVEMENT_COST: i32 = -1;
/// Score change charged when no route to a resource is known.
/// (`EXPECTED_RANDOM_MOVE` moves at `MOVEMENT_COST` each.)
pub const EXPLORATION_COST: i32 = -15;
pub const ITEM_MULT: i32 = 5;
pub const BASIC_VALUE: i32 = 1 * ITEM_MULT;
pub const COMPLEXITY_OFFSET: i32 = 1 * ITEM_MULT;
pub const WATER_VALUE: i32 = BASIC_VALUE * 2 + COMPLEXITY_OFFSET;
pub const DIAMOND_VALUE: i32 = BASIC_VALUE * 2 + COMPLEXITY_OFFSET;
pub const LIFE_VALUE: i32 = WATER_VALUE + BASIC_VALUE + COMPLEXITY_OFFSET;
pub const DOLPHIN_VALUE: i32 = LIFE_VALUE + BASIC_VALUE + COMPLEXITY_OFFSET;
pub const ROBOT_VALUE: i32 = LIFE_VALUE + BASIC_VALUE + COMPLEXITY_OFFSET;
pub const AIPARTNER_VALUE: i32 = ROBOT_VALUE + DIAMOND_VALUE + COMPLEXITY_OFFSET;
/// Plans are added once no more than this many are left.
pub const MIN_PLANS_BEFORE_REPOP: usize = 3;

/// What a plan does once its prerequisites are in the bag.
#[derive(Clone, Copy, Debug, PartialEq, Eq, Structural)]
pub enum Actions {
    /// Have a planet generate a basic resource.
    Grab(BasicKind),
    /// Have a planet craft a complex resource.
    Craft(ComplexKind),
}

/// The score an action is expected to bring.
pub open spec fn action_value(a: Actions) -> i32 {
    match a {
        Actions::Grab(_) => BASIC_VALUE,
        Actions::Craft(c) => match c {
            ComplexKind::Water => WATER_VALUE,
            ComplexKind::Diamond => DIAMOND_VALUE,
            ComplexKind::Life => LIFE_VALUE,
            ComplexKind::Dolphin => DOLPHIN_VALUE,
            ComplexKind::Robot => ROBOT_VALUE,
            ComplexKind::AIPartner => AIPARTNER_VALUE,
        },
    }
}

/// The resource an action produces.
pub open spec fn action_resource(a: Actions) -> AnyResource {
    match a {
        Actions::Grab(b) => basic_to_any(b),
        Actions::Craft(c) => complex_to_any(c),
    }
}

/// The action that obtains a resource kind.
pub open spec fn action_for(k: ResourceKind) -> Actions {
    match k {
        ResourceKind::Basic(b) => Actions::Grab(b),
        ResourceKind::Complex(c) => Actions::Craft(c),
    }
}

/// The resource kind an action obtains.
pub open spec fn action_kind(a: Actions) -> ResourceKind {
    match a {
        Actions::Grab(b) => ResourceKind::Basic(b),
        Actions::Craft(c) => ResourceKind::Complex(c),
    }
}

impl Actions {
    pub fn get_expected_score(&self) -> (r: Expectedscore)
        ensures
            r.s == action_value(*self),
    {
        match self {
            Actions::Grab(_) => Expectedscore::new(BASIC_VALUE),
            Actions::Craft(thing) => {
                match thing {
                    ComplexKind::Water => Expectedscore::new(WATER_VALUE),
                    ComplexKind::Diamond => Expectedscore::new(DIAMOND_VALUE),
                    ComplexKind::Life => Expectedscore::new(LIFE_VALUE),
                    ComplexKind::Dolphin => Expectedscore::new(DOLPHIN_VALUE),
                    ComplexKind::Robot => Expectedscore::new(ROBOT_VALUE),
                    ComplexKind::AIPartner => Expectedscore::new(AIPARTNER_VALUE),
                }
            },
        }
    }

    pub fn get_resource(&self) -> (r: AnyResource)
        ensures
            r == action_resource(*self),
    {
        match self {
            Actions::Grab(thing) => AnyResource::from(*thing),
            Actions::Craft(thing) => AnyResource::from(*thing),
        }
    }
}

/// What must be in the bag before a resource kind can be obtained, and how many of each.
pub open spec fn recipe(k: ResourceKind) -> Seq<(ResourceKind, usize)> {
    match k {
        ResourceKind::Basic(_) => Seq::empty(),
        ResourceKind::Complex(ComplexKind::Water) => seq![
            (ResourceKind::Basic(BasicKind::Oxygen), 1usize),
            (ResourceKind::Basic(BasicKind::Hydrogen), 1usize),
        ],
        ResourceKind::Complex(ComplexKind::Diamond) => seq![(ResourceKind::Basic(BasicKind::Carbon), 2usize)],
        ResourceKind::Complex(ComplexKind::Life) => seq![
            (ResourceKind::Basic(BasicKind::Carbon), 1usize),
            (ResourceKind::Complex(ComplexKind::Water), 1usize),
        ],
        ResourceKind::Complex(ComplexKind::Dolphin) => seq![
            (ResourceKind::Complex(ComplexKind::Water), 1usize),
            (ResourceKind::Complex(ComplexKind::Life), 1usize),
        ],
        ResourceKind::Complex(ComplexKind::Robot) => seq![
            (ResourceKind::Complex(ComplexKind::Life), 1usize),
            (ResourceKind::Basic(BasicKind::Silicon), 1usize),
        ],
        ResourceKind::Complex(ComplexKind::AIPartner) => seq![
            (ResourceKind::Complex(ComplexKind::Robot), 1usize),
            (ResourceKind::Complex(ComplexKind::Diamond), 1usize),
        ],
    }
}

/// Law: a recipe names each prerequisite kind once, with a count of at
/// least one, as a map from kinds to counts would.
pub proof fn lemma_recipe_keys(k: ResourceKind)
    ensures
        forall|i: int, j: int| 0 <= i < j < recipe(k).len() ==> recipe(k)[i].0 != recipe(k)[j].0,
        forall|i: int| 0 <= i < recipe(k).len() ==> #[trigger] recipe(k)[i].1 >= 1,
{
}

/// What the prerequisites `pre` are worth together: each kind's value, as
/// many times as it is needed.
pub open spec fn recipe_value(pre: Seq<(ResourceKind, usize)>) -> int
    decreases pre.len(),
{
    if pre.len() == 0 {
        0
    } else {
        recipe_value(pre.drop_last()) + pre.last().1 * action_value(action_for(pre.last().0))
    }
}

/// Law: a basic resource is worth `BASIC_VALUE`, and a complex one the
/// worth of its recipe's inputs plus `COMPLEXITY_OFFSET`, but for a dolphin,
/// which is valued as a life plus one basic resource and the offset.
pub proof fn lemma_value_from_recipe(k: ResourceKind)
    ensures
        k is Basic ==> action_value(action_for(k)) == BASIC_VALUE,
        k is Complex && k != ResourceKind::Complex(ComplexKind::Dolphin)
            ==> action_value(action_for(k)) == recipe_value(recipe(k)) + COMPLEXITY_OFFSET,
        k == ResourceKind::Complex(ComplexKind::Dolphin) ==> action_value(action_for(k))
            == action_value(Actions::Craft(ComplexKind::Life)) + BASIC_VALUE + COMPLEXITY_OFFSET,
{
    if let ResourceKind::Complex(c) = k {
        let r = recipe(k);
        lemma_times(r[0].1 as int, action_value(action_for(r[0].0)) as int);
        if r.len() == 2 {
            lemma_times(r[1].1 as int, action_value(action_for(r[1].0)) as int);
            assert(r.drop_last() =~= seq![r[0]]);
            assert(r.drop_last().drop_last() =~= Seq::<(ResourceKind, usize)>::empty());
            assert(recipe_value(Seq::<(ResourceKind, usize)>::empty()) == 0);
            assert(r.drop_last().last() == r[0]);
            assert(r.last() == r[1]);
            assert(recipe_value(r.drop_last()) == r[0].1 * action_value(action_for(r[0].0)));
            assert(recipe_value(r) == r[0].1 * action_value(action_for(r[0].0))
                + r[1].1 * action_value(action_for(r[1].0)));
        } else {
            assert(r.drop_last() =~= Seq::<(ResourceKind, usize)>::empty());
            assert(recipe_value(Seq::<(ResourceKind, usize)>::empty()) == 0);
            assert(r.last() == r[0]);
            assert(recipe_value(r) == r[0].1 * action_value(action_for(r[0].0)));
        }
    }
}

/// Once or twice a value.
proof fn lemma_times(n: int, v: int)
    ensures
        n == 1 ==> n * v == v,
        n == 2 ==> n * v == v + v,
{
    if n == 2 {
        assert(n * v == v + v) by (nonlinear_arith)
            requires
                n == 2,
        ;
    }
}

/// Law: the resource an action travels to is the kind it obtains.
pub proof fn lemma_action_resource(a: Actions)
    ensures
        action_resource(a) == kind_to_any(action_kind(a)),
        any_to_kind(action_resource(a)) == action_kind(a),
        action_for(action_kind(a)) == a,
{
}

/// How deep a kind's recipe goes: every prerequisite ranks lower.
pub open spec fn rank(k: ResourceKind) -> nat {
    match k {
        ResourceKind::Basic(_) => 0,
        ResourceKind::Complex(ComplexKind::Water) => 1,
        ResourceKind::Complex(ComplexKind::Diamond) => 1,
        ResourceKind::Complex(ComplexKind::Life) => 2,
        ResourceKind::Complex(ComplexKind::Dolphin) => 3,
        ResourceKind::Complex(ComplexKind::Robot) => 3,
        ResourceKind::Complex(ComplexKind::AIPartner) => 4,
    }
}

/// The kinds of the plans made for a kind, in the order they are made: the
/// plans for its prerequisites, as many times as each is needed and in
/// recipe order, then the plan for the kind itself.
pub open spec fn plan_tree(k: ResourceKind) -> Seq<ResourceKind>
    decreases rank(k),
{
    match k {
        ResourceKind::Basic(_) => seq![k],
        ResourceKind::Complex(ComplexKind::Water) => seq![
            ResourceKind::Basic(BasicKind::Oxygen),
            ResourceKind::Basic(BasicKind::Hydrogen),
            k,
        ],
        ResourceKind::Complex(ComplexKind::Diamond) => seq![
            ResourceKind::Basic(BasicKind::Carbon),
            ResourceKind::Basic(BasicKind::Carbon),
            k,
        ],
        ResourceKind::Complex(ComplexKind::Life) => seq![ResourceKind::Basic(BasicKind::Carbon)]
            + plan_tree(ResourceKind::Complex(ComplexKind::Water)) + seq![k],
        ResourceKind::Complex(ComplexKind::Dolphin) => plan_tree(ResourceKind::Complex(ComplexKind::Water))
            + plan_tree(ResourceKind::Complex(ComplexKind::Life)) + seq![k],
        ResourceKind::Complex(ComplexKind::Robot) => plan_tree(ResourceKind::Complex(ComplexKind::Life))
            + seq![ResourceKind::Basic(BasicKind::Silicon)] + seq![k],
        ResourceKind::Complex(ComplexKind::AIPartner) => plan_tree(ResourceKind::Complex(ComplexKind::Robot))
            + plan_tree(ResourceKind::Complex(ComplexKind::Diamond)) + seq![k],
    }
}

/// `n` copies of the plans for `k`.
pub open spec fn repeated(k: ResourceKind, n: nat) -> Seq<ResourceKind>
    decreases n,
{
    if n == 0 { Seq::empty() } else { repeated(k, (n - 1) as nat) + plan_tree(k) }
}

/// The plans for a list of prerequisites, in order.
pub open spec fn expansion(pre: Seq<(ResourceKind, usize)>) -> Seq<ResourceKind>
    decreases pre.len(),
{
    if pre.len() == 0 {
        Seq::empty()
    } else {
        expansion(pre.drop_last()) + repeated(pre.last().0, pre.last().1 as nat)
    }
}

/// Law: the plans made for a kind are those for each prerequisite of its
/// recipe, as many times as it is needed and in recipe order, followed by the
/// plan for the kind itself; every prerequisite ranks below the kind.
pub proof fn lemma_tree_unfolds(k: ResourceKind)
    ensures
        plan_tree(k) == expansion(recipe(k)) + seq![k],
        forall|i: int| 0 <= i < recipe(k).len() ==> rank(#[trigger] recipe(k)[i].0) < rank(k),
{
    reveal_with_fuel(repeated, 3);
    reveal_with_fuel(expansion, 3);
    let r = recipe(k);
    if r.len() == 2 {
        assert(r.drop_last().drop_last() =~= Seq::<(ResourceKind, usize)>::empty());
        assert(r.drop_last().last() == r[0]);
        assert(repeated(r[0].0, 1) =~= plan_tree(r[0].0));
        assert(repeated(r[1].0, 1) =~= plan_tree(r[1].0));
        assert(expansion(r) =~= plan_tree(r[0].0) + plan_tree(r[1].0));
    } else if r.len() == 1 {
        assert(r.drop_last() =~= Seq::<(ResourceKind, usize)>::empty());
        assert(repeated(r[0].0, 2) =~= plan_tree(r[0].0) + plan_tree(r[0].0));
        assert(expansion(r) =~= plan_tree(r[0].0) + plan_tree(r[0].0));
    } else {
        assert(expansion(r) =~= Seq::<ResourceKind>::empty());
    }
    assert(plan_tree(k) =~= expansion(recipe(k)) + seq![k]);
}

/// Law: an AI partner takes eleven plans, starting with carbon and ending
/// with the AI partner itself.
pub proof fn lemma_ai_partner_tree()
    ensures
        plan_tree(ResourceKind::Complex(ComplexKind::AIPartner)).len() == 11,
        plan_tree(ResourceKind::Complex(ComplexKind::AIPartner))[0] == ResourceKind::Basic(BasicKind::Carbon),
        plan_tree(ResourceKind::Complex(ComplexKind::AIPartner))[10] == ResourceKind::Complex(ComplexKind::AIPartner),
{
    reveal_with_fuel(plan_tree, 4);
}

/// A plan to obtain one resource.
pub struct Plan {
    pub prerequisites: Vec<(ResourceKind, usize)>,
    pub action: Actions,
}

/// The prerequisites of a plan are all in the bag, in the numbers needed.
pub open spec fn plan_ready(p: Plan, bag: Seq<ResourceKind>) -> bool {
    forall|i: int| 0 <= i < p.prerequisites@.len()
        ==> (#[trigger] p.prerequisites@[i]).1 <= count_of(bag, p.prerequisites@[i].0)
}

/// The kinds the plans obtain, in order.
pub open spec fn targets(plans: Seq<Plan>) -> Seq<ResourceKind> {
    plans.map_values(|p: Plan| action_kind(p.action))
}

/// A plan made for its kind: its prerequisites are the kind's recipe.
pub open spec fn plan_wf(p: Plan) -> bool {
    p.prerequisites@ == recipe(action_kind(p.action))
}

impl Plan {
    pub fn new(what: ResourceKind) -> (p: Plan)
        ensures
            p.action == action_for(what),
            action_kind(p.action) == what,
            p.prerequisites@ == recipe(what),
    {
        let mut prerequisites: Vec<(ResourceKind, usize)> = Vec::new();
        match what {
            ResourceKind::Basic(_) => {},
            ResourceKind::Complex(ComplexKind::Water) => {
                prerequisites.push((ResourceKind::Basic(BasicKind::Oxygen), 1));
                prerequisites.push((ResourceKind::Basic(BasicKind::Hydrogen), 1));
            },
            ResourceKind::Complex(ComplexKind::Diamond) => {
                prerequisites.push((ResourceKind::Basic(BasicKind::Carbon), 2));
            },
            ResourceKind::Complex(ComplexKind::Life) => {
                prerequisites.push((ResourceKind::Basic(BasicKind::Carbon), 1));
                prerequisites.push((ResourceKind::Complex(ComplexKind::Water), 1));
            },
            ResourceKind::Complex(ComplexKind::Dolphin) => {
                prerequisites.push((ResourceKind::Complex(ComplexKind::Water), 1));
                prerequisites.push((ResourceKind::Complex(ComplexKind::Life), 1));
            },
            ResourceKind::Complex(ComplexKind::Robot) => {
                prerequisites.push((ResourceKind::Complex(ComplexKind::Life), 1));
                prerequisites.push((ResourceKind::Basic(BasicKind::Silicon), 1));
            },
            ResourceKind::Complex(ComplexKind::AIPartner) => {
                prerequisites.push((ResourceKind::Complex(ComplexKind::Robot), 1));
                prerequisites.push((ResourceKind::Complex(ComplexKind::Diamond), 1));
            },
        }
        let action = match what {
            ResourceKind::Basic(a) => Actions::Grab(a),
            ResourceKind::Complex(a) => Actions::Craft(a),
        };
        assert(prerequisites@ =~= recipe(what));
        Plan { prerequisites, action }
    }

    /// Whether every prerequisite is in the bag in the numbers needed.
    fn requirements_met(&self, inventory: &Inventory) -> (met: bool)
        ensures
            met == plan_ready(*self, inventory@),
    {
        let mut requirements_met = true;
        let mut i: usize = 0;
        while i < self.prerequisites.len()
            invariant
                0 <= i <= self.prerequisites@.len(),
                requirements_met == forall|j: int| 0 <= j < i
                    ==> (#[trigger] self.prerequisites@[j]).1 <= count_of(inventory@, self.prerequisites@[j].0),
            decreases self.prerequisites@.len() - i,
        {
            let (kind, needed) = self.prerequisites[i];
            requirements_met = (needed <= inventory.has_resource(kind)) && requirements_met;
            i = i + 1;
        }
        requirements_met
    }
}


/// What pursuing plan `p` is expected to bring from planet `here`, and the
/// tables after its route has been worked out: nothing when a prerequisite is
/// missing, else the action's value less one point per move of the route.
/// `None` when the route cannot be worked out or is too long to count.
pub open spec fn score_step(
    planets: Map<u32, Planet>,
    w: Table,
    here: u32,
    bag: Seq<ResourceKind>,
    p: Plan,
) -> Option<(Table, int)> {
    if !plan_ready(p, bag) {
        Some((w, 0))
    } else {
        let s = action_resource(p.action).slot();
        if route_exists(planets, w, here, s) && route_of(planets, w, here, s).1.len() <= i32::MAX {
            Some((route_of(planets, w, here, s).0, action_value(p.action) - route_of(planets, w, here, s).1.len()))
        } else {
            None
        }
    }
}

/// Law: with settled tables, a plan whose prerequisites are in the bag is
/// expected to bring its action's value less the current planet's weight for
/// its resource, one point per jump, and leaves the tables as they were.
pub proof fn lemma_settled_score(planets: Map<u32, Planet>, w: Table, here: u32, bag: Seq<ResourceKind>, p: Plan)
    requires
        settled(planets, w),
        w.contains_key(here),
        plan_ready(p, bag),
        w[here][action_resource(p.action).slot()] is Some,
    ensures
        score_step(planets, w, here, bag, p)
            == Some((w, action_value(p.action) - w[here][action_resource(p.action).slot()]->0)),
{
    lemma_settled_route(planets, w, here, action_resource(p.action));
}

/// Scoring the plans one after the other: the tables afterwards and the
/// score of each plan.
pub open spec fn score_run(
    planets: Map<u32, Planet>,
    w: Table,
    here: u32,
    bag: Seq<ResourceKind>,
    plans: Seq<Plan>,
) -> Option<(Table, Seq<int>)>
    decreases plans.len(),
{
    if plans.len() == 0 {
        Some((w, Seq::empty()))
    } else {
        match score_run(planets, w, here, bag, plans.drop_last()) {
            None => None,
            Some((w1, scores)) => match score_step(planets, w1, here, bag, plans.last()) {
                None => None,
                Some((w2, x)) => Some((w2, scores.push(x))),
            },
        }
    }
}

/// The first position of the highest score, if there is any score.
pub open spec fn first_best(scores: Seq<int>) -> Option<int>
    decreases scores.len(),
{
    if scores.len() == 0 {
        None
    } else {
        match first_best(scores.drop_last()) {
            None => Some(scores.len() - 1),
            Some(j) => if scores.last() > scores[j] { Some(scores.len() - 1) } else { Some(j) },
        }
    }
}

/// Law: the position `first_best` picks holds the highest score, and every
/// earlier position a strictly lower one.
pub proof fn lemma_first_best(scores: Seq<int>)
    ensures
        scores.len() == 0 <==> first_best(scores) is None,
        first_best(scores) matches Some(j) ==> {
            &&& 0 <= j < scores.len()
            &&& forall|i: int| 0 <= i < scores.len() ==> scores[i] <= scores[j]
            &&& forall|i: int| 0 <= i < j ==> scores[i] < scores[j]
        },
    decreases scores.len(),
{
    if scores.len() > 0 {
        let d = scores.drop_last();
        lemma_first_best(d);
        assert forall|i: int| 0 <= i < d.len() implies d[i] == scores[i] by {}
    }
}

/// A prefix of a run that completes completes too.
proof fn lemma_run_prefix(
    planets: Map<u32, Planet>,
    w: Table,
    here: u32,
    bag: Seq<ResourceKind>,
    plans: Seq<Plan>,
    k: int,
)
    requires
        score_run(planets, w, here, bag, plans) is Some,
        0 <= k <= plans.len(),
    ensures
        score_run(planets, w, here, bag, plans.take(k)) is Some,
    decreases plans.len() - k,
{
    if k == plans.len() {
        assert(plans.take(k) =~= plans);
    } else {
        lemma_run_prefix(planets, w, here, bag, plans, k + 1);
        assert(plans.take(k + 1).drop_last() =~= plans.take(k));
    }
}

/// `new` is `old` followed by plans, made for their kinds, for `kinds`.
pub open spec fn extends(old: Seq<Plan>, new: Seq<Plan>, kinds: Seq<ResourceKind>) -> bool {
    &&& new.len() == old.len() + kinds.len()
    &&& forall|i: int| 0 <= i < old.len() ==> new[i] == old[i]
    &&& forall|i: int| 0 <= i < kinds.len() ==> {
        &&& action_kind((#[trigger] new[old.len() + i]).action) == kinds[i]
        &&& plan_wf(new[old.len() + i])
    }
}

proof fn lemma_extends_trans(a: Seq<Plan>, b: Seq<Plan>, c: Seq<Plan>, k1: Seq<ResourceKind>, k2: Seq<ResourceKind>)
    requires
        extends(a, b, k1),
        extends(b, c, k2),
    ensures
        extends(a, c, k1 + k2),
{
    assert forall|i: int| 0 <= i < (k1 + k2).len() implies {
        &&& action_kind((#[trigger] c[a.len() + i]).action) == (k1 + k2)[i]
        &&& plan_wf(c[a.len() + i])
    } by {
        if i < k1.len() {
            assert(c[a.len() + i] == b[a.len() + i]);
        } else {
            let j = i - k1.len();
            assert(c[b.len() + j] == c[a.len() + i]);
        }
    }
}

impl Plan {
    /// The score pursuing this plan is expected to bring, working out the
    /// route to its resource when its prerequisites are in the bag.
    pub fn get_score(&self, memory: &mut Memory, inventory: &Inventory) -> (r: Expectedscore)
        requires
            old(memory).wf(),
            score_step(old(memory).planets(), old(memory).table(), old(memory).here(), inventory@, *self) is Some,
        ensures
            final(memory).wf(),
            final(memory).here() == old(memory).here(),
            final(memory).planets() == old(memory).planets(),
            (final(memory).table(), r.s as int) == score_step(
                old(memory).planets(),
                old(memory).table(),
                old(memory).here(),
                inventory@,
                *self,
            )->0,
    {
        let requirements_met = self.requirements_met(inventory);
        if requirements_met {
            let item_score = self.action.get_expected_score();
            let now = memory.get_current_id();
            let move_path = memory.path_sanity(now, self.action.get_resource());
            let move_cost = match move_path {
                None => Expectedscore::new(EXPLORATION_COST),
                Some(p) => Expectedscore::new((p.len() as i32) * MOVEMENT_COST),
            };
            item_score + move_cost
        } else {
            Expectedscore::new(0)
        }
    }
}

/// The explorer's planner: its running score and the plans it still has.
pub struct Brain {
    current_score: Score,
    plans: VecDeque<Plan>,
}

impl Brain {
    /// The running score.
    pub closed spec fn score(&self) -> int {
        self.current_score.s as int
    }

    /// The plans, oldest first.
    pub closed spec fn plans(&self) -> Seq<Plan> {
        self.plans@
    }

    pub fn new() -> (b: Brain)
        ensures
            b.score() == 0,
            b.plans() == Seq::<Plan>::empty(),
    {
        Brain { current_score: Score { s: 0 }, plans: VecDeque::new() }
    }

    /// Drops every plan.
    pub fn clear_plans(&mut self)
        ensures
            final(self).score() == old(self).score(),
            final(self).plans() == Seq::<Plan>::empty(),
    {
        self.plans.clear();
    }

    /// Starts over: no score, no plans.
    pub fn reset(&mut self)
        ensures
            final(self).score() == 0,
            final(self).plans() == Seq::<Plan>::empty(),
    {
        self.current_score = Score { s: 0 };
        self.plans.clear();
    }

    /// Adds to the running score.
    pub fn add_score(&mut self, other: Score)
        requires
            i32::MIN <= old(self).score() + other.s <= i32::MAX,
        ensures
            final(self).score() == old(self).score() + other.s,
            final(self).plans() == old(self).plans(),
    {
        self.current_score.add_assign(other);
    }

    /// The plan expected to bring the most, the first one among equals;
    /// every plan's route is worked out on the way.
    pub fn best_plan(&self, memory: &mut Memory, inventory: &Inventory) -> (r: Option<usize>)
        requires
            old(memory).wf(),
            score_run(old(memory).planets(), old(memory).table(), old(memory).here(), inventory@, self.plans()) is Some,
        ensures
            final(memory).wf(),
            final(memory).here() == old(memory).here(),
            final(memory).planets() == old(memory).planets(),
            final(memory).table() == (score_run(
                old(memory).planets(),
                old(memory).table(),
                old(memory).here(),
                inventory@,
                self.plans(),
            )->0).0,
            r matches Some(i) ==> first_best((score_run(
                old(memory).planets(),
                old(memory).table(),
                old(memory).here(),
                inventory@,
                self.plans(),
            )->0).1) == Some(i as int),
            r is None ==> self.plans().len() == 0,
    {
        let ghost planets = memory.planets();
        let ghost here = memory.here();
        let ghost t0 = memory.table();
        let ghost bag = inventory@;
        let ghost plans = self.plans@;
        let mut best_score: Option<Expectedscore> = None;
        let mut best_scorer: Option<usize> = None;
        let ghost mut scores: Seq<int> = Seq::empty();
        let mut i: usize = 0;
        proof {
            assert(plans.take(0) =~= Seq::<Plan>::empty());
        }
        while i < self.plans.len()
            invariant
                plans == self.plans@,
                bag == inventory@,
                score_run(planets, t0, here, bag, plans) is Some,
                0 <= i <= plans.len(),
                memory.wf(),
                memory.here() == here,
                memory.planets() == planets,
                score_run(planets, t0, here, bag, plans.take(i as int)) == Some((memory.table(), scores)),
                scores.len() == i,
                match best_scorer {
                    None => i == 0 && best_score is None,
                    Some(j) => j < i && first_best(scores) == Some(j as int) && best_score is Some
                        && best_score->0.s == scores[j as int],
                },
            decreases plans.len() - i,
        {
            proof {
                lemma_run_prefix(planets, t0, here, bag, plans, i + 1);
                assert(plans.take(i + 1).drop_last() =~= plans.take(i as int));
                assert(plans.take(i + 1).last() == plans[i as int]);
            }
            let score = self.plans[i].get_score(memory, inventory);
            let ghost prev = scores;
            proof {
                scores = scores.push(score.s as int);
                assert(scores.drop_last() =~= prev);
                assert(scores.last() == score.s as int);
            }
            if best_score.is_none() || score > best_score.clone().unwrap() {
                best_scorer = Some(i);
                best_score = Some(score);
            }
            proof {
                match best_scorer {
                    Some(j) => {
                        assert(scores[j as int] == best_score->0.s);
                    },
                    None => {},
                }
            }
            i = i + 1;
        }
        proof {
            assert(plans.take(i as int) =~= plans);
        }
        best_scorer
    }

    /// The running score.
    pub fn current_score(&self) -> (r: i32)
        ensures
            r == self.score(),
    {
        self.current_score.s
    }

    /// What completing the plan at `indx` adds to the score.
    pub fn plan_value(&self, indx: usize) -> (r: i32)
        requires
            indx < self.plans().len(),
        ensures
            r == action_value(self.plans()[indx as int].action),
    {
        self.plans[indx].action.get_expected_score().s
    }

    pub fn plan_count(&self) -> (n: usize)
        ensures
            n == self.plans().len(),
    {
        self.plans.len()
    }

    /// Adds plans for `what`: first, recursively, those for its
    /// prerequisites, as many times as each is needed, then its own.
    fn make_plan(&mut self, what: ResourceKind)
        ensures
            final(self).score() == old(self).score(),
            extends(old(self).plans(), final(self).plans(), plan_tree(what)),
        decreases rank(what),
    {
        let ghost start = self.plans@;
        let plan = Plan::new(what);
        proof {
            lemma_tree_unfolds(what);
            assert(plan.prerequisites@.take(0) =~= Seq::<(ResourceKind, usize)>::empty());
        }
        let mut j: usize = 0;
        while j < plan.prerequisites.len()
            invariant
                plan.prerequisites@ == recipe(what),
                forall|x: int| 0 <= x < recipe(what).len() ==> rank(#[trigger] recipe(what)[x].0) < rank(what),
                0 <= j <= plan.prerequisites@.len(),
                self.score() == old(self).score(),
                extends(start, self.plans@, expansion(plan.prerequisites@.take(j as int))),
            decreases plan.prerequisites@.len() - j,
        {
            let (i, n) = plan.prerequisites[j];
            let ghost before = self.plans@;
            let ghost done = expansion(plan.prerequisites@.take(j as int));
            let mut c: usize = 0;
            assert(done + repeated(i, 0) =~= done);
            while c < n
                invariant
                    rank(i) < rank(what),
                    0 <= c <= n,
                    self.score() == old(self).score(),
                    extends(start, self.plans@, done + repeated(i, c as nat)),
                decreases n - c,
            {
                let ghost mid = self.plans@;
                self.make_plan(i);
                proof {
                    lemma_extends_trans(start, mid, self.plans@, done + repeated(i, c as nat), plan_tree(i));
                    assert(done + repeated(i, (c + 1) as nat) =~= done + repeated(i, c as nat) + plan_tree(i));
                }
                c = c + 1;
            }
            proof {
                let t = plan.prerequisites@.take(j + 1);
                assert(t.drop_last() =~= plan.prerequisites@.take(j as int));
                assert(t.last() == (i, n));
            }
            j = j + 1;
        }
        proof {
            assert(plan.prerequisites@.take(j as int) =~= plan.prerequisites@);
        }
        let ghost mid = self.plans@;
        self.plans.push_back(plan);
        proof {
            assert(extends(mid, self.plans@, seq![what]));
            lemma_extends_trans(start, mid, self.plans@, expansion(recipe(what)), seq![what]);
        }
    }

    /// Adds plans for an AI partner once few plans are left.
    pub fn populate_plans(&mut self)
        ensures
            final(self).score() == old(self).score(),
            old(self).plans().len() <= MIN_PLANS_BEFORE_REPOP ==> extends(
                old(self).plans(),
                final(self).plans(),
                plan_tree(ResourceKind::Complex(ComplexKind::AIPartner)),
            ),
            old(self).plans().len() > MIN_PLANS_BEFORE_REPOP ==> final(self).plans() == old(self).plans(),
    {
        if self.plan_count() <= MIN_PLANS_BEFORE_REPOP {
            self.make_plan(ResourceKind::Complex(ComplexKind::AIPartner));
        }
    }

    /// The resource the plan at `indx` obtains.
    pub fn plan_resource(&self, indx: usize) -> (r: AnyResource)
        requires
            indx < self.plans().len(),
        ensures
            r == action_resource(self.plans()[indx as int].action),
    {
        self.plans[indx].action.get_resource()
    }

    /// Charges the moves made on the way to a plan's resource.
    pub fn pay_moves(&mut self, cost: i32)
        requires
            i32::MIN <= old(self).score() - cost <= i32::MAX,
        ensures
            final(self).score() == old(self).score() - cost,
            final(self).plans() == old(self).plans(),
    {
        self.current_score.sub_assign(Score { s: cost });
    }

    /// What follows the journey to the resource of the plan at `indx`: the
    /// moves made are charged whether or not the journey went through; then
    /// the kind to obtain, or the order that stopped the journey.
    pub fn travel_outcome(&mut self, indx: usize, travel: Result<i32, (InterruptOrder, i32)>)
        -> (r: Result<ResourceKind, InterruptOrder>)
        requires
            indx < old(self).plans().len(),
            match travel {
                Ok(cost) => i32::MIN <= old(self).score() - cost <= i32::MAX,
                Err((_, cost)) => i32::MIN <= old(self).score() - cost <= i32::MAX,
            },
        ensures
            final(self).plans() == old(self).plans(),
            match travel {
                Ok(cost) => final(self).score() == old(self).score() - cost
                    && r == Ok::<ResourceKind, InterruptOrder>(action_kind(old(self).plans()[indx as int].action)),
                Err((o, cost)) => final(self).score() == old(self).score() - cost
                    && r == Err::<ResourceKind, InterruptOrder>(o),
            },
    {
        match travel {
            Ok(cost) => {
                self.pay_moves(cost);
                let kind = match self.plans[indx].action {
                    Actions::Grab(b) => ResourceKind::Basic(b),
                    Actions::Craft(c) => ResourceKind::Complex(c),
                };
                Ok(kind)
            },
            Err((o, cost)) => {
                self.pay_moves(cost);
                Err(o)
            },
        }
    }

    /// What follows asking a planet for the resource of the plan at `indx`:
    /// when it came, the plan is completed with it; otherwise the plan stays.
    pub fn obtain_outcome(&mut self, indx: usize, inventory: &mut Inventory, got: Option<ResourceKind>)
        requires
            indx < old(self).plans().len(),
            got is Some ==> i32::MIN <= old(self).score() + action_value(old(self).plans()[indx as int].action) <= i32::MAX,
        ensures
            match got {
                Some(g) => {
                    &&& final(inventory)@ == old(inventory)@.push(g)
                    &&& final(self).score() == old(self).score() + action_value(old(self).plans()[indx as int].action)
                    &&& final(self).plans() == old(self).plans().remove(indx as int)
                },
                None => {
                    &&& final(inventory)@ == old(inventory)@
                    &&& final(self).score() == old(self).score()
                    &&& final(self).plans() == old(self).plans()
                },
            },
    {
        match got {
            Some(g) => self.complete_plan(indx, inventory, g),
            None => {},
        }
    }

    /// Completes the plan at `indx` with the resource obtained: it goes in the
    /// bag, the plan's value is added to the score and the plan is dropped.
    pub fn complete_plan(&mut self, indx: usize, inventory: &mut Inventory, got: ResourceKind)
        requires
            indx < old(self).plans().len(),
            i32::MIN <= old(self).score() + action_value(old(self).plans()[indx as int].action) <= i32::MAX,
        ensures
            final(inventory)@ == old(inventory)@.push(got),
            final(self).score() == old(self).score() + action_value(old(self).plans()[indx as int].action),
            final(self).plans() == old(self).plans().remove(indx as int),
    {
        inventory.put_in_bag(got);
        let gain = self.plans[indx].action.get_expected_score().to_score();
        self.current_score.add_assign(gain);
        self.plans.remove(indx);
    }
}

} // verus!
