//! The explorer's memory of the galaxy: the planets it has seen, which ones
//! neighbour which, what each explored planet produces, and for every planet a
//! table of how many jumps away each resource is believed to be.
use vstd::prelude::*;
use vstd::hash_map::HashMapWithView;
use crate::resources::{lemma_slots_distinct, AnyResource, RESOURCE_COUNT};
use crate::InterruptOrder;

verus! {

broadcast use vstd::std_specs::hash::group_hash_axioms;

/// A sequence of planets to visit, in order.
pub type Path = Vec<u32>;

/// What an explored planet produces or crafts, each resource once.
pub struct PlanetContent {
    pub produces: Vec<AnyResource>,
}

/// A prefix one item longer holds `x` exactly when the shorter one does or
/// the added item is `x`.
proof fn lemma_take_contains<A>(s: Seq<A>, j: int, x: A)
    requires
        0 <= j < s.len(),
    ensures
        s.take(j + 1).contains(x) <==> (s.take(j).contains(x) || s[j] == x),
{
    let before = s.take(j);
    let after = s.take(j + 1);
    assert(after =~= before.push(s[j]));
    if before.contains(x) {
        let m = choose|m: int| 0 <= m < before.len() && before[m] == x;
        assert(after[m] == x);
    }
    if after.contains(x) && s[j] != x {
        let m = choose|m: int| 0 <= m < after.len() && after[m] == x;
        assert(before[m] == x);
    }
    if s[j] == x {
        assert(after[j] == x);
    }
}

/// `items` with each one kept at its first occurrence only.
pub open spec fn distinct(items: Seq<AnyResource>) -> Seq<AnyResource>
    decreases items.len(),
{
    if items.len() == 0 {
        items
    } else {
        let d = distinct(items.drop_last());
        if d.contains(items.last()) {
            d
        } else {
            d.push(items.last())
        }
    }
}

/// Keeping first occurrences keeps every item and repeats none.
pub proof fn lemma_distinct(items: Seq<AnyResource>)
    ensures
        distinct(items).no_duplicates(),
        forall|r: AnyResource| #[trigger] distinct(items).contains(r) <==> items.contains(r),
    decreases items.len(),
{
    if items.len() > 0 {
        let p = items.drop_last();
        let x = items.last();
        lemma_distinct(p);
        let d = distinct(p);
        assert forall|r: AnyResource| #[trigger] distinct(items).contains(r) <==> items.contains(r) by {
            if p.contains(r) {
                let j = choose|j: int| 0 <= j < p.len() && p[j] == r;
                assert(items[j] == r);
            }
            if items.contains(r) && r != x {
                let j = choose|j: int| 0 <= j < items.len() && items[j] == r;
                assert(j != items.len() - 1);
                assert(p[j] == r);
            }
            if r == x {
                assert(items[items.len() - 1] == x);
            }
            if !d.contains(x) && distinct(items).contains(r) && r != x {
                let j = choose|j: int| 0 <= j < d.push(x).len() && d.push(x)[j] == r;
                assert(d[j] == r);
            }
            if !d.contains(x) && d.contains(r) {
                let j = choose|j: int| 0 <= j < d.len() && d[j] == r;
                assert(d.push(x)[j] == r);
            }
            if !d.contains(x) && r == x {
                assert(d.push(x)[d.len() as int] == x);
            }
        }
    }
}

impl PlanetContent {
    /// The content of a planet producing `produces`, each resource kept once.
    pub fn new(produces: Vec<AnyResource>) -> (r: PlanetContent)
        ensures
            r.produces@ == distinct(produces@),
            r.produces@.no_duplicates(),
    {
        let mut kept: Vec<AnyResource> = Vec::new();
        let mut i: usize = 0;
        while i < produces.len()
            invariant
                0 <= i <= produces@.len(),
                kept@ == distinct(produces@.take(i as int)),
            decreases produces@.len() - i,
        {
            let x = produces[i];
            let mut seen = false;
            let mut j: usize = 0;
            while j < kept.len()
                invariant
                    0 <= j <= kept@.len(),
                    seen == kept@.take(j as int).contains(x),
                decreases kept@.len() - j,
            {
                proof {
                    lemma_slots_distinct(kept@[j as int], x);
                    lemma_take_contains(kept@, j as int, x);
                }
                if kept[j].index() == x.index() {
                    seen = true;
                }
                j = j + 1;
            }
            assert(kept@.take(j as int) =~= kept@);
            assert(produces@.take(i + 1).drop_last() =~= produces@.take(i as int));
            assert(produces@.take(i + 1).last() == x);
            if !seen {
                kept.push(x);
            }
            i = i + 1;
        }
        assert(produces@.take(i as int) =~= produces@);
        proof {
            lemma_distinct(produces@);
        }
        PlanetContent { produces: kept }
    }

    pub fn get_products(&self) -> (r: &Vec<AnyResource>)
        ensures
            r@ == self.produces@,
    {
        &self.produces
    }
}

/// Whether a planet has been explored, and what it produces if so.
pub enum PlanetStatus {
    Unexplored,
    Explored(PlanetContent),
}

impl PlanetStatus {
    pub fn get_content(&self) -> (r: Option<&Vec<AnyResource>>)
        ensures
            match self {
                PlanetStatus::Unexplored => r is None,
                PlanetStatus::Explored(c) => r is Some && r->0@ == c.produces@,
            },
    {
        match self {
            PlanetStatus::Unexplored => None,
            PlanetStatus::Explored(cont) => Some(cont.get_products()),
        }
    }
}

/// A planet of the explorer's map.
pub struct Planet {
    pub id: u32,
    pub cont: PlanetStatus,
    pub adj: Vec<u32>,
}

impl Planet {
    pub fn new(received_id: u32) -> (p: Planet)
        ensures
            p.id == received_id,
            p.cont is Unexplored,
            p.adj@ == Seq::<u32>::empty(),
    {
        Planet { id: received_id, cont: PlanetStatus::Unexplored, adj: Vec::new() }
    }

    /// Records what the planet produces.
    pub fn explored(&mut self, cont: PlanetContent)
        ensures
            final(self).id == old(self).id,
            final(self).adj@ == old(self).adj@,
            final(self).cont == PlanetStatus::Explored(cont),
    {
        self.cont = PlanetStatus::Explored(cont);
    }

    /// Gives up the planet, keeping its list of neighbours.
    pub fn destroy(self) -> (adj: Vec<u32>)
        ensures
            adj@ == self.adj@,
    {
        self.adj
    }
}

/// The weight tables of all planets: for each planet, one slot per resource,
/// holding the believed number of jumps to a planet that provides it.
pub type Table = Map<u32, Seq<Option<i32>>>;

/// The set of resources an explored planet provides.
pub open spec fn provides(p: Planet, r: AnyResource) -> bool {
    match p.cont {
        PlanetStatus::Explored(c) => c.produces@.contains(r),
        PlanetStatus::Unexplored => false,
    }
}

/// Every table has one slot per resource and no weight is negative.
pub open spec fn table_wf(w: Table) -> bool {
    forall|k: u32| #[trigger] w.contains_key(k) ==> {
        &&& w[k].len() == RESOURCE_COUNT
        &&& forall|s: int| 0 <= s < RESOURCE_COUNT ==> (#[trigger] w[k][s] matches Some(v) ==> v >= 0)
    }
}

/// One neighbour's slot folded into the best weight found so far: one jump
/// more than the neighbour, if that is better.
pub open spec fn combine(theirs: Option<i32>, acc: Option<i32>) -> Option<i32> {
    match theirs {
        None => acc,
        Some(w) => match acc {
            None => Some((w + 1) as i32),
            Some(a) => if w + 1 < a { Some((w + 1) as i32) } else { acc },
        },
    }
}

/// The slot `s` of a neighbour's table, if the neighbour has one.
pub open spec fn slot_of(w: Table, n: u32, s: int) -> Option<i32> {
    if w.contains_key(n) { w[n][s] } else { None }
}

/// The least weight, plus one jump, that any of the planets `adj` has in slot `s`.
pub open spec fn nearest_via(w: Table, adj: Seq<u32>, s: int) -> Option<i32>
    decreases adj.len(),
{
    if adj.len() == 0 {
        None
    } else {
        combine(slot_of(w, adj.last(), s), nearest_via(w, adj.drop_last(), s))
    }
}

/// The table a planet gets when it is brought up to date: zero for what it
/// provides, one more than its best neighbour for the rest.
pub open spec fn refreshed(planets: Map<u32, Planet>, w: Table, id: u32) -> Seq<Option<i32>> {
    Seq::new(
        RESOURCE_COUNT as nat,
        |s: int|
            if provides(planets[id], AnyResource::of_slot(s)) {
                Some(0i32)
            } else {
                nearest_via(w, planets[id].adj@, s)
            },
    )
}

/// Bringing planet `id` up to date does not fail: it is known and explored,
/// and no neighbour holds a weight that one more jump would overflow.
pub open spec fn update_safe(planets: Map<u32, Planet>, w: Table, id: u32) -> bool {
    &&& planets.contains_key(id)
    &&& planets[id].cont is Explored
    &&& no_overflow(w, planets[id].adj@)
}

/// None of the planets `adj` holds a weight that one more jump would overflow.
pub open spec fn no_overflow(w: Table, adj: Seq<u32>) -> bool {
    forall|i: int, s: int|
        0 <= i < adj.len() && 0 <= s < RESOURCE_COUNT
            ==> (#[trigger] slot_of(w, adj[i], s) matches Some(v) ==> v < i32::MAX)
}

/// The tables after bringing planet `id` up to date.
pub open spec fn upd(planets: Map<u32, Planet>, w: Table, id: u32) -> Table {
    w.insert(id, refreshed(planets, w, id))
}

/// Bringing a planet up to date keeps the tables well formed.
pub proof fn lemma_upd_wf(planets: Map<u32, Planet>, w: Table, id: u32)
    requires
        table_wf(w),
        update_safe(planets, w, id),
    ensures
        table_wf(upd(planets, w, id)),
{
    assert forall|s: int| 0 <= s < RESOURCE_COUNT implies
        (#[trigger] refreshed(planets, w, id)[s] matches Some(v) ==> v >= 0) by {
        lemma_nearest_bounds(planets, w, id, planets[id].adj@.len() as int, s);
        assert(planets[id].adj@.take(planets[id].adj@.len() as int) =~= planets[id].adj@);
    }
}

/// The best neighbour weight over a prefix of the neighbours is one more than
/// some non-negative weight, so it is positive and fits.
proof fn lemma_nearest_bounds(planets: Map<u32, Planet>, w: Table, id: u32, k: int, s: int)
    requires
        table_wf(w),
        update_safe(planets, w, id),
        0 <= k <= planets[id].adj@.len(),
        0 <= s < RESOURCE_COUNT,
    ensures
        nearest_via(w, planets[id].adj@.take(k), s) matches Some(v) ==> v >= 1,
    decreases k,
{
    let adj = planets[id].adj@;
    if k > 0 {
        assert(adj.take(k).drop_last() =~= adj.take(k - 1));
        lemma_nearest_bounds(planets, w, id, k - 1, s);
        let n = adj.take(k).last();
        assert(n == adj[k - 1]);
        assert(slot_of(w, adj[k - 1], s) matches Some(v) ==> v < i32::MAX);
    }
    assert(adj.take(adj.len() as int) =~= adj);
}



/// Changing the table of a planet that is not among `adj` leaves the best
/// neighbour weight over `adj` as it was.
proof fn lemma_nearest_ignores(w: Table, adj: Seq<u32>, s: int, id: u32, t: Seq<Option<i32>>)
    requires
        !adj.contains(id),
    ensures
        nearest_via(w.insert(id, t), adj, s) == nearest_via(w, adj, s),
    decreases adj.len(),
{
    if adj.len() > 0 {
        assert(!adj.drop_last().contains(id)) by {
            if adj.drop_last().contains(id) {
                let j = choose|j: int| 0 <= j < adj.drop_last().len() && adj.drop_last()[j] == id;
                assert(adj[j] == id);
            }
        }
        lemma_nearest_ignores(w, adj.drop_last(), s, id, t);
        assert(adj.last() != id) by {
            if adj.last() == id {
                assert(adj[adj.len() - 1] == id);
            }
        }
    }
}

/// Law: bringing a planet up to date a second time changes nothing, unless
/// the planet is among its own neighbours; and when the first update could
/// be made, so can the second.
pub proof fn lemma_upd_idempotent(planets: Map<u32, Planet>, w: Table, id: u32)
    requires
        planets.contains_key(id),
        !planets[id].adj@.contains(id),
    ensures
        upd(planets, upd(planets, w, id), id) == upd(planets, w, id),
        update_safe(planets, w, id) ==> update_safe(planets, upd(planets, w, id), id),
{
    let w1 = upd(planets, w, id);
    assert forall|i: int, s: int| 0 <= i < planets[id].adj@.len() && 0 <= s < RESOURCE_COUNT implies
        #[trigger] slot_of(w1, planets[id].adj@[i], s) == slot_of(w, planets[id].adj@[i], s) by {
        assert(planets[id].adj@[i] != id);
    }
    assert forall|s: int| 0 <= s < RESOURCE_COUNT implies
        nearest_via(w1, planets[id].adj@, s) == nearest_via(w, planets[id].adj@, s) by {
        lemma_nearest_ignores(w, planets[id].adj@, s, id, refreshed(planets, w, id));
    }
    assert(refreshed(planets, w1, id) =~= refreshed(planets, w, id));
    assert(upd(planets, w1, id) =~= w1);
}

/// Scanning candidate planets, taken from the end of `cands`: each one is
/// brought up to date, and the last one scanned whose weight for slot `s`
/// equals `target` is remembered. `None` when a candidate cannot be brought
/// up to date.
pub open spec fn scan(
    planets: Map<u32, Planet>,
    w: Table,
    cands: Seq<u32>,
    s: int,
    target: i32,
    found: Option<u32>,
) -> Option<(Table, Option<u32>)>
    decreases cands.len(),
{
    if cands.len() == 0 {
        Some((w, found))
    } else {
        let c = cands.last();
        if update_safe(planets, w, c) {
            let w2 = upd(planets, w, c);
            let f2 = if w2[c][s] == Some(target) { Some(c) } else { found };
            scan(planets, w2, cands.drop_last(), s, target, f2)
        } else {
            None
        }
    }
}

/// One step down the weights from `start` towards a planet providing slot
/// `s`: the tables afterwards and the neighbour chosen, if any. `None` when a
/// planet on the way cannot be brought up to date.
pub open spec fn step_from(planets: Map<u32, Planet>, w: Table, start: u32, s: int) -> Option<(Table, Option<u32>)> {
    if !update_safe(planets, w, start) {
        None
    } else {
        let w1 = upd(planets, w, start);
        match w1[start][s] {
            None => Some((w1, None)),
            Some(d) => scan(planets, w1, planets[start].adj@, s, (d - 1) as i32, None),
        }
    }
}

/// Following `step_from` from `cur` until no neighbour is chosen, within
/// `fuel` steps: the tables afterwards and the planets visited.
pub open spec fn walk(planets: Map<u32, Planet>, w: Table, cur: u32, s: int, fuel: nat) -> Option<(Table, Seq<u32>)>
    decreases fuel,
{
    if fuel == 0 {
        None
    } else {
        match step_from(planets, w, cur, s) {
            None => None,
            Some((w1, None)) => Some((w1, Seq::<u32>::empty())),
            Some((w1, Some(c))) => match walk(planets, w1, c, s, (fuel - 1) as nat) {
                None => None,
                Some((w2, rest)) => Some((w2, seq![c] + rest)),
            },
        }
    }
}

/// The path from `start` to a planet providing slot `s`, with `fuel` steps at
/// most: empty when `start` provides it, the walk down the weights
/// otherwise. `None` when `start` has no weight for the slot, when a planet on
/// the way cannot be brought up to date, or when the fuel runs out.
pub open spec fn route(planets: Map<u32, Planet>, w: Table, start: u32, s: int, fuel: nat) -> Option<(Table, Seq<u32>)> {
    if !update_safe(planets, w, start) {
        None
    } else {
        let w1 = upd(planets, w, start);
        match w1[start][s] {
            None => None,
            Some(d) => if d == 0 {
                Some((w1, Seq::<u32>::empty()))
            } else {
                walk(planets, w1, start, s, fuel)
            },
        }
    }
}

/// Some finite number of steps completes the route.
pub open spec fn route_exists(planets: Map<u32, Planet>, w: Table, start: u32, s: int) -> bool {
    exists|f: nat| #[trigger] route(planets, w, start, s, f) is Some
}

/// The completed route: the tables afterwards and the planets to visit.
pub open spec fn route_of(planets: Map<u32, Planet>, w: Table, start: u32, s: int) -> (Table, Seq<u32>) {
    route(planets, w, start, s, choose|f: nat| #[trigger] route(planets, w, start, s, f) is Some)->0
}

/// More fuel does not change a walk that already completes.
pub proof fn lemma_walk_fuel(planets: Map<u32, Planet>, w: Table, cur: u32, s: int, f: nat, g: nat)
    requires
        walk(planets, w, cur, s, f) is Some,
        f <= g,
    ensures
        walk(planets, w, cur, s, g) == walk(planets, w, cur, s, f),
    decreases f,
{
    match step_from(planets, w, cur, s) {
        Some((w1, Some(c))) => {
            lemma_walk_fuel(planets, w1, c, s, (f - 1) as nat, (g - 1) as nat);
        },
        _ => {},
    }
}

/// More fuel does not change a route that already completes.
pub proof fn lemma_route_fuel(planets: Map<u32, Planet>, w: Table, start: u32, s: int, f: nat, g: nat)
    requires
        route(planets, w, start, s, f) is Some,
        f <= g,
    ensures
        route(planets, w, start, s, g) == route(planets, w, start, s, f),
{
    if update_safe(planets, w, start) {
        let w1 = upd(planets, w, start);
        match w1[start][s] {
            Some(d) => {
                if d != 0 {
                    lemma_walk_fuel(planets, w1, start, s, f, g);
                }
            },
            None => {},
        }
    }
}


/// How often `k` occurs in `s`.
pub open spec fn occurrences(s: Seq<u32>, k: u32) -> nat
    decreases s.len(),
{
    if s.len() == 0 {
        0
    } else {
        occurrences(s.drop_last(), k) + if s.last() == k { 1nat } else { 0nat }
    }
}

/// A neighbour list after `times` passes that each drop a trailing `id`.
pub open spec fn trim(adj: Seq<u32>, id: u32, times: nat) -> Seq<u32>
    decreases times,
{
    if times == 0 {
        adj
    } else {
        let a = trim(adj, id, (times - 1) as nat);
        if a.len() > 0 && a.last() == id { a.drop_last() } else { a }
    }
}

/// No pass of `trim` meets `id` anywhere but at the end of the list.
pub open spec fn trim_ok(adj: Seq<u32>, id: u32, times: nat) -> bool
    decreases times,
{
    if times == 0 {
        true
    } else {
        let a = trim(adj, id, (times - 1) as nat);
        &&& trim_ok(adj, id, (times - 1) as nat)
        &&& forall|j: int| 0 <= j < a.len() - 1 ==> a[j] != id
    }
}

/// Forgetting planet `id` does not fail: it is known and has a weight table,
/// each of its neighbours is another known planet, and in each neighbour's
/// list `id` only ever stands last when it is met.
pub open spec fn forget_ok(planets: Map<u32, Planet>, w: Table, id: u32) -> bool {
    &&& planets.contains_key(id)
    &&& w.contains_key(id)
    &&& forall|i: int| 0 <= i < planets[id].adj@.len() ==> {
        let n = #[trigger] planets[id].adj@[i];
        &&& n != id
        &&& planets.contains_key(n)
        &&& trim_ok(planets[n].adj@, id, occurrences(planets[id].adj@, n))
    }
}

/// A table with the slots of `prods` set to zero.
pub open spec fn zeroed(t: Seq<Option<i32>>, prods: Seq<AnyResource>) -> Seq<Option<i32>> {
    Seq::new(
        RESOURCE_COUNT as nat,
        |s: int| if prods.contains(AnyResource::of_slot(s)) { Some(0i32) } else { t[s] },
    )
}

/// The tables once the products of planet `now` are recorded at distance zero.
pub open spec fn with_products(w: Table, now: u32, prods: Seq<AnyResource>) -> Table {
    if prods.len() > 0 { w.insert(now, zeroed(w[now], prods)) } else { w }
}

/// Fewer passes of `trim` are fine when more are.
proof fn lemma_trim_ok_mono(adj: Seq<u32>, id: u32, a: nat, b: nat)
    requires
        trim_ok(adj, id, b),
        a <= b,
    ensures
        trim_ok(adj, id, a),
    decreases b,
{
    if a < b {
        lemma_trim_ok_mono(adj, id, a, (b - 1) as nat);
    }
}

/// `id` stands nowhere in `adj` but possibly last.
pub open spec fn only_last(adj: Seq<u32>, id: u32) -> bool {
    forall|j: int| 0 <= j < adj.len() - 1 ==> adj[j] != id
}

/// When `id` stands nowhere but last, one pass of `trim` or more leaves no
/// `id` at all.
proof fn lemma_trim_clears(adj: Seq<u32>, id: u32, t: nat)
    requires
        only_last(adj, id),
        t >= 1,
    ensures
        !trim(adj, id, t).contains(id),
    decreases t,
{
    if t == 1 {
        let a = trim(adj, id, 1);
        assert(trim(adj, id, 0) == adj);
        assert forall|j: int| 0 <= j < a.len() implies a[j] != id by {
            if adj.len() > 0 && adj.last() == id {
                assert(a[j] == adj[j]);
            } else {
                assert(a == adj);
                if j == adj.len() - 1 {
                    assert(adj[j] == adj.last());
                }
            }
        }
    } else {
        lemma_trim_clears(adj, id, (t - 1) as nat);
        let a = trim(adj, id, (t - 1) as nat);
        if a.len() > 0 {
            assert(a[a.len() - 1] != id);
        }
    }
}

/// Every pass of `trim` meets `id` nowhere but last exactly when the list
/// holds `id` nowhere but last, or there is no pass.
proof fn lemma_trim_ok_only_last(adj: Seq<u32>, id: u32, t: nat)
    ensures
        trim_ok(adj, id, t) <==> (t == 0 || only_last(adj, id)),
    decreases t,
{
    if t > 0 {
        lemma_trim_ok_only_last(adj, id, (t - 1) as nat);
        assert(trim(adj, id, 0) == adj);
        if t > 1 && only_last(adj, id) {
            lemma_trim_clears(adj, id, (t - 1) as nat);
            let a = trim(adj, id, (t - 1) as nat);
            assert forall|j: int| 0 <= j < a.len() - 1 implies a[j] != id by {
                if a[j] == id {
                    assert(a.contains(id));
                }
            }
        }
    }
}

/// A list holds each of its items at least once.
proof fn lemma_occurrences_at(s: Seq<u32>, k: int)
    requires
        0 <= k < s.len(),
    ensures
        occurrences(s, s[k]) >= 1,
{
    lemma_occurrences_step(s, k, s[k]);
    lemma_occurrences_prefix(s, k + 1, s[k]);
}

/// A prefix holds no more occurrences than the whole.
proof fn lemma_occurrences_prefix(s: Seq<u32>, k: int, x: u32)
    requires
        0 <= k <= s.len(),
    ensures
        occurrences(s.take(k), x) <= occurrences(s, x),
    decreases s.len() - k,
{
    if k == s.len() {
        assert(s.take(k) =~= s);
    } else {
        assert(s.take(k + 1).drop_last() =~= s.take(k));
        lemma_occurrences_prefix(s, k + 1, x);
    }
}

/// Occurrences in a longer prefix.
proof fn lemma_occurrences_step(s: Seq<u32>, k: int, x: u32)
    requires
        0 <= k < s.len(),
    ensures
        occurrences(s.take(k + 1), x) == occurrences(s.take(k), x) + if s[k] == x { 1nat } else { 0nat },
        occurrences(s.take(k), x) <= occurrences(s, x),
    decreases s.len() - k,
{
    assert(s.take(k + 1).drop_last() =~= s.take(k));
    if k + 1 < s.len() {
        lemma_occurrences_step(s, k + 1, x);
    } else {
        assert(s.take(k + 1) =~= s);
    }
}


/// The planet a scan remembers is the one it started with or a candidate.
proof fn lemma_scan_found(
    planets: Map<u32, Planet>,
    w: Table,
    cands: Seq<u32>,
    s: int,
    target: i32,
    found: Option<u32>,
)
    requires
        scan(planets, w, cands, s, target, found) is Some,
    ensures
        ({
            let f = (scan(planets, w, cands, s, target, found)->0).1;
            f == found || (f is Some && cands.contains(f->0))
        }),
    decreases cands.len(),
{
    if cands.len() > 0 {
        let c = cands.last();
        let w2 = upd(planets, w, c);
        let f2 = if w2[c][s] == Some(target) { Some(c) } else { found };
        lemma_scan_found(planets, w2, cands.drop_last(), s, target, f2);
        let f = (scan(planets, w, cands, s, target, found)->0).1;
        if f is Some && f != found {
            if f == f2 && f2 == Some(c) {
                assert(cands[cands.len() - 1] == c);
            } else {
                let j = choose|j: int| 0 <= j < cands.drop_last().len() && cands.drop_last()[j] == f->0;
                assert(cands[j] == f->0);
            }
        }
    }
}

/// Each planet of a walk neighbours the one before it, the first one
/// neighbouring the start.
proof fn lemma_walk_adjacent(planets: Map<u32, Planet>, w: Table, cur: u32, s: int, fuel: nat)
    requires
        walk(planets, w, cur, s, fuel) is Some,
    ensures
        ({
            let p = (walk(planets, w, cur, s, fuel)->0).1;
            &&& p.len() > 0 ==> planets[cur].adj@.contains(p[0])
            &&& forall|i: int| 0 <= i < p.len() - 1 ==> planets[p[i]].adj@.contains(#[trigger] p[i + 1])
        }),
    decreases fuel,
{
    let w1 = upd(planets, w, cur);
    match step_from(planets, w, cur, s) {
        Some((wn, Some(c))) => {
            let d = w1[cur][s]->0;
            #[verifier::truncate]
            let target = (d - 1) as i32;
            lemma_scan_found(planets, w1, planets[cur].adj@, s, target, None);
            lemma_walk_adjacent(planets, wn, c, s, (fuel - 1) as nat);
            let rest = (walk(planets, wn, c, s, (fuel - 1) as nat)->0).1;
            let p = (walk(planets, w, cur, s, fuel)->0).1;
            assert(p == seq![c] + rest);
            assert forall|i: int| 0 <= i < p.len() - 1 implies planets[p[i]].adj@.contains(#[trigger] p[i + 1]) by {
                if i == 0 {
                    assert(p[0] == c);
                    assert(p[1] == rest[0]);
                    assert(rest.len() > 0);
                    assert(planets[c].adj@.contains(rest[0]));
                } else {
                    let j = i - 1;
                    assert(p[i] == rest[j]);
                    assert(p[i + 1] == rest[j + 1]);
                    assert(0 <= j < rest.len() - 1);
                    assert(planets[rest[j]].adj@.contains(rest[j + 1]));
                }
            }
        },
        _ => {},
    }
}

/// Law: the route handed back by `path_sanity` is a walk through the map:
/// its first planet neighbours the start, and each later planet neighbours
/// the one before it.
pub proof fn lemma_route_is_walk(planets: Map<u32, Planet>, w: Table, start: u32, s: int)
    requires
        route_exists(planets, w, start, s),
    ensures
        ({
            let p = route_of(planets, w, start, s).1;
            &&& p.len() > 0 ==> planets[start].adj@.contains(p[0])
            &&& forall|i: int| 0 <= i < p.len() - 1 ==> planets[p[i]].adj@.contains(#[trigger] p[i + 1])
        }),
{
    let f = choose|f: nat| #[trigger] route(planets, w, start, s, f) is Some;
    let w1 = upd(planets, w, start);
    if w1[start][s] != Some(0i32) {
        lemma_walk_adjacent(planets, w1, start, s, f);
    }
}

/// Law: standing on an explored planet that provides the resource, the route
/// is empty and exists whatever the fuel.
pub proof fn lemma_route_at_provider(planets: Map<u32, Planet>, w: Table, start: u32, r: AnyResource)
    requires
        update_safe(planets, w, start),
        provides(planets[start], r),
    ensures
        route_exists(planets, w, start, r.slot()),
        route_of(planets, w, start, r.slot()).1 == Seq::<u32>::empty(),
        route_of(planets, w, start, r.slot()).0 == upd(planets, w, start),
{
    assert(AnyResource::of_slot(r.slot()) == r);
    assert(refreshed(planets, w, start)[r.slot()] == Some(0i32));
    assert(route(planets, w, start, r.slot(), 0) is Some);
}


/// The tables agree with the map: every planet with a table is known,
/// explored and can be brought up to date, its table is already up to date,
/// and its neighbours have tables too.
pub open spec fn settled(planets: Map<u32, Planet>, w: Table) -> bool {
    &&& table_wf(w)
    &&& forall|k: u32| #[trigger] w.contains_key(k) ==> {
        &&& update_safe(planets, w, k)
        &&& w[k] == refreshed(planets, w, k)
        &&& forall|i: int| 0 <= i < planets[k].adj@.len() ==> w.contains_key(#[trigger] planets[k].adj@[i])
    }
}

/// A best neighbour weight of `v` comes from a neighbour one jump closer.
proof fn lemma_nearest_witness(w: Table, adj: Seq<u32>, s: int)
    requires
        no_overflow(w, adj),
        0 <= s < RESOURCE_COUNT,
    ensures
        nearest_via(w, adj, s) matches Some(v) ==> exists|i: int| 0 <= i < adj.len()
            && #[trigger] slot_of(w, adj[i], s) == Some((v - 1) as i32),
    decreases adj.len(),
{
    if adj.len() > 0 {
        let d = adj.drop_last();
        assert(no_overflow(w, d)) by {
            assert forall|i: int, t: int| 0 <= i < d.len() && 0 <= t < RESOURCE_COUNT implies
                (#[trigger] slot_of(w, d[i], t) matches Some(v) ==> v < i32::MAX) by {
                assert(d[i] == adj[i]);
                assert(slot_of(w, adj[i], t) matches Some(v) ==> v < i32::MAX);
            }
        }
        lemma_nearest_witness(w, d, s);
        let last = adj.len() - 1;
        assert(slot_of(w, adj[last], s) matches Some(v) ==> v < i32::MAX);
        match nearest_via(w, adj, s) {
            Some(v) => {
                if nearest_via(w, adj, s) == nearest_via(w, d, s) && nearest_via(w, d, s) is Some {
                    let i = choose|i: int| 0 <= i < d.len() && #[trigger] slot_of(w, d[i], s) == Some((v - 1) as i32);
                    assert(slot_of(w, adj[i], s) == Some((v - 1) as i32));
                } else {
                    assert(slot_of(w, adj[last], s) == Some((v - 1) as i32));
                }
            },
            None => {},
        }
    }
}

/// Bringing a planet with a settled table up to date changes nothing.
proof fn lemma_settled_upd(planets: Map<u32, Planet>, w: Table, k: u32)
    requires
        settled(planets, w),
        w.contains_key(k),
    ensures
        upd(planets, w, k) == w,
{
    assert(upd(planets, w, k) =~= w);
}

/// Scanning planets with settled tables changes no table and remembers a
/// candidate at the target weight whenever one exists.
proof fn lemma_settled_scan(
    planets: Map<u32, Planet>,
    w: Table,
    cands: Seq<u32>,
    s: int,
    target: i32,
    found: Option<u32>,
)
    requires
        settled(planets, w),
        forall|i: int| 0 <= i < cands.len() ==> w.contains_key(#[trigger] cands[i]),
    ensures
        scan(planets, w, cands, s, target, found) is Some,
        (scan(planets, w, cands, s, target, found)->0).0 == w,
        ({
            let f = (scan(planets, w, cands, s, target, found)->0).1;
            &&& f == found || (f is Some && w.contains_key(f->0) && w[f->0][s] == Some(target))
            &&& found is Some ==> f is Some
            &&& (exists|i: int| 0 <= i < cands.len() && w[#[trigger] cands[i]][s] == Some(target)) ==> f is Some
        }),
    decreases cands.len(),
{
    if cands.len() > 0 {
        let c = cands.last();
        assert(w.contains_key(cands[cands.len() - 1]));
        lemma_settled_upd(planets, w, c);
        let f2 = if w[c][s] == Some(target) { Some(c) } else { found };
        let d = cands.drop_last();
        assert forall|i: int| 0 <= i < d.len() implies w.contains_key(#[trigger] d[i]) by {
            assert(d[i] == cands[i]);
        }
        lemma_settled_scan(planets, w, d, s, target, f2);
        if exists|i: int| 0 <= i < cands.len() && w[#[trigger] cands[i]][s] == Some(target) {
            let i = choose|i: int| 0 <= i < cands.len() && w[#[trigger] cands[i]][s] == Some(target);
            if i < d.len() {
                assert(d[i] == cands[i]);
            }
        }
    }
}

/// A planet whose settled table holds zero for a slot provides that resource.
proof fn lemma_settled_zero(planets: Map<u32, Planet>, w: Table, k: u32, s: int)
    requires
        settled(planets, w),
        w.contains_key(k),
        0 <= s < RESOURCE_COUNT,
        w[k][s] == Some(0i32),
    ensures
        provides(planets[k], AnyResource::of_slot(s)),
{
    lemma_nearest_bounds(planets, w, k, planets[k].adj@.len() as int, s);
    assert(planets[k].adj@.take(planets[k].adj@.len() as int) =~= planets[k].adj@);
}

/// From a planet of weight `d` in settled tables, the walk takes `d` steps,
/// changes no table and ends on a planet that provides the resource.
proof fn lemma_settled_walk(planets: Map<u32, Planet>, w: Table, cur: u32, s: int, d: nat)
    requires
        settled(planets, w),
        w.contains_key(cur),
        0 <= s < RESOURCE_COUNT,
        d <= i32::MAX,
        w[cur][s] == Some(d as i32),
    ensures
        walk(planets, w, cur, s, d + 1) is Some,
        (walk(planets, w, cur, s, d + 1)->0).0 == w,
        (walk(planets, w, cur, s, d + 1)->0).1.len() == d,
        ({
            let p = (walk(planets, w, cur, s, d + 1)->0).1;
            let end = if p.len() == 0 { cur } else { p.last() };
            w.contains_key(end) && provides(planets[end], AnyResource::of_slot(s))
        }),
    decreases d,
{
    lemma_settled_upd(planets, w, cur);
    let adj = planets[cur].adj@;
    assert forall|i: int| 0 <= i < adj.len() implies w.contains_key(#[trigger] adj[i]) by {}
    #[verifier::truncate]
    let target = (d - 1) as i32;
    lemma_settled_scan(planets, w, adj, s, target, None);
    if d == 0 {
        lemma_settled_zero(planets, w, cur, s);
        let f = (scan(planets, w, adj, s, target, None)->0).1;
        if f is Some {
            let c = f->0;
            assert(w[c][s] == Some(-1i32));
            assert(w[c][s] matches Some(v) ==> v >= 0);
        }
    } else {
        assert(w[cur][s] == refreshed(planets, w, cur)[s]);
        assert(!provides(planets[cur], AnyResource::of_slot(s)));
        assert(nearest_via(w, adj, s) == Some(d as i32));
        lemma_nearest_witness(w, adj, s);
        let i = choose|i: int| 0 <= i < adj.len() && #[trigger] slot_of(w, adj[i], s) == Some(((d as i32) - 1) as i32);
        assert(slot_of(w, adj[i], s) == w[adj[i]][s]);
        assert(w[adj[i]][s] == Some(target));
        let c = (scan(planets, w, adj, s, target, None)->0).1->0;
        assert(w[c][s] == Some(((d - 1) as nat) as i32));
        lemma_settled_walk(planets, w, c, s, (d - 1) as nat);
        let rest = (walk(planets, w, c, s, d)->0).1;
        let p = (walk(planets, w, cur, s, d + 1)->0).1;
        assert(p == seq![c] + rest);
        if rest.len() > 0 {
            assert(p.last() == rest.last());
        }
    }
}

/// Law: when the tables are settled, the route from a planet of weight `d`
/// for a resource holds exactly `d` planets, leaves the tables as they were
/// and ends on a planet that provides the resource.
pub proof fn lemma_settled_route(planets: Map<u32, Planet>, w: Table, start: u32, r: AnyResource)
    requires
        settled(planets, w),
        w.contains_key(start),
        w[start][r.slot()] is Some,
    ensures
        route_exists(planets, w, start, r.slot()),
        route_of(planets, w, start, r.slot()).0 == w,
        route_of(planets, w, start, r.slot()).1.len() == w[start][r.slot()]->0,
        ({
            let p = route_of(planets, w, start, r.slot()).1;
            let end = if p.len() == 0 { start } else { p.last() };
            provides(planets[end], r)
        }),
{
    let s = r.slot();
    let d = w[start][s]->0;
    assert(d >= 0);
    assert(AnyResource::of_slot(s) == r);
    lemma_settled_upd(planets, w, start);
    lemma_settled_walk(planets, w, start, s, d as nat);
    if d == 0 {
        lemma_settled_zero(planets, w, start, s);
    }
    let g = (d + 1) as nat;
    assert(route(planets, w, start, s, g) is Some);
    let f = choose|f: nat| #[trigger] route(planets, w, start, s, f) is Some;
    if f <= g {
        lemma_route_fuel(planets, w, start, s, f, g);
    } else {
        lemma_route_fuel(planets, w, start, s, g, f);
    }
}

/// The best neighbour weight is at most one more than the weight of any one
/// neighbour.
proof fn lemma_nearest_at_most(w: Table, adj: Seq<u32>, s: int, i: int)
    requires
        0 <= s < RESOURCE_COUNT,
        0 <= i < adj.len(),
        slot_of(w, adj[i], s) is Some,
        no_overflow(w, adj),
    ensures
        nearest_via(w, adj, s) is Some,
        nearest_via(w, adj, s)->0 <= slot_of(w, adj[i], s)->0 + 1,
    decreases adj.len(),
{
    let d = adj.drop_last();
    assert(slot_of(w, adj[adj.len() - 1], s) matches Some(v) ==> v < i32::MAX);
    assert(slot_of(w, adj[i], s) matches Some(v) ==> v < i32::MAX);
    if i < adj.len() - 1 {
        assert forall|j: int, t: int| 0 <= j < d.len() && 0 <= t < RESOURCE_COUNT implies
            (#[trigger] slot_of(w, d[j], t) matches Some(v) ==> v < i32::MAX) by {
            assert(d[j] == adj[j]);
            assert(slot_of(w, adj[j], t) matches Some(v) ==> v < i32::MAX);
        }
        assert(d[i] == adj[i]);
        lemma_nearest_at_most(w, d, s, i);
    }
}

/// Law: in settled tables, the weight of a planet for a resource is at most
/// the number of jumps of any path along the neighbour lists from it to a
/// planet that provides the resource. With `lemma_settled_route`, the route
/// path_sanity follows is a shortest such path.
pub proof fn lemma_settled_shortest(planets: Map<u32, Planet>, w: Table, path: Seq<u32>, r: AnyResource)
    requires
        settled(planets, w),
        path.len() > 0,
        w.contains_key(path[0]),
        forall|i: int| 0 <= i < path.len() - 1 ==> planets[path[i]].adj@.contains(#[trigger] path[i + 1]),
        provides(planets[path.last()], r),
    ensures
        w[path[0]][r.slot()] is Some,
        w[path[0]][r.slot()]->0 <= path.len() - 1,
    decreases path.len(),
{
    let s = r.slot();
    let k = path[0];
    lemma_slots_distinct(r, r);
    assert(w[k] == refreshed(planets, w, k));
    assert(w[k][s] == refreshed(planets, w, k)[s]);
    if path.len() > 1 && !provides(planets[k], r) {
        let rest = path.subrange(1, path.len() as int);
        let n = path[1];
        let first: int = 0;
        assert(planets[path[first]].adj@.contains(path[first + 1]));
        let adj = planets[k].adj@;
        let j = choose|j: int| 0 <= j < adj.len() && adj[j] == n;
        assert(w.contains_key(adj[j]));
        assert forall|i: int| 0 <= i < rest.len() - 1 implies planets[rest[i]].adj@.contains(#[trigger] rest[i + 1]) by {
            assert(rest[i] == path[i + 1]);
            assert(rest[i + 1] == path[i + 2]);
            assert(planets[path[i + 1]].adj@.contains(path[(i + 1) + 1]));
        }
        assert(rest.last() == path.last());
        assert(rest[0] == n);
        lemma_settled_shortest(planets, w, rest, r);
        assert(slot_of(w, adj[j], s) == w[n][s]);
        lemma_nearest_at_most(w, adj, s, j);
    }
}

/// The explorer's memory of the galaxy.
pub struct Memory {
    current: u32,
    weights: HashMapWithView<u32, Vec<Option<i32>>>,
    map: HashMapWithView<u32, Planet>,
}

impl Memory {
    /// The planet the explorer is on.
    pub closed spec fn here(&self) -> u32 {
        self.current
    }

    /// The planets the explorer knows about.
    pub closed spec fn planets(&self) -> Map<u32, Planet> {
        self.map@
    }

    /// The weight tables of the planets that have one.
    pub closed spec fn table(&self) -> Table {
        self.weights@.map_values(|v: Vec<Option<i32>>| v@)
    }

    /// The tables hold no negative weight, each planet is filed under its own
    /// id, and an explored planet lists each of its products once.
    pub open spec fn wf(&self) -> bool {
        &&& table_wf(self.table())
        &&& forall|k: u32| #[trigger] self.planets().contains_key(k) ==> self.planets()[k].id == k
        &&& forall|k: u32| #[trigger] self.planets().contains_key(k) ==> (self.planets()[k].cont matches
            PlanetStatus::Explored(c) ==> c.produces@.no_duplicates())
    }

    pub fn new(current: u32) -> (m: Memory)
        ensures
            m.wf(),
            m.here() == current,
            m.planets() == Map::<u32, Planet>::empty(),
            m.table() == Map::<u32, Seq<Option<i32>>>::empty(),
    {
        let m = Memory { current, map: HashMapWithView::new(), weights: HashMapWithView::new() };
        assert(m.table() =~= Map::<u32, Seq<Option<i32>>>::empty());
        m
    }

    /// Forgets every planet and every weight.
    pub fn forget_all(&mut self)
        ensures
            final(self).wf(),
            final(self).here() == old(self).here(),
            final(self).planets() == Map::<u32, Planet>::empty(),
            final(self).table() == Map::<u32, Seq<Option<i32>>>::empty(),
    {
        self.weights.clear();
        self.map.clear();
        assert(self.table() =~= Map::<u32, Seq<Option<i32>>>::empty());
    }

    /// Whether planet `id` has a weight table.
    pub fn has_weights(&self, id: u32) -> (r: bool)
        ensures
            r == self.table().contains_key(id),
    {
        self.weights.contains_key(&id)
    }

    /// Looks along the neighbours of planet `here` for the first unexplored
    /// one, stopping there: `None` when a neighbour it looks up is not on the
    /// map, else the unexplored neighbour found, if any.
    fn first_unexplored_at(&self, here: u32) -> (r: Option<Option<u32>>)
        requires
            self.planets().contains_key(here),
        ensures
            r is Some <==> looked_up_known(self.planets(), self.planets()[here].adj@),
            r matches Some(f) ==> f == first_unexplored(self.planets(), self.planets()[here].adj@),
    {
        let ghost planets = self.planets();
        let adjs = &self.map.get(&here).unwrap().adj;
        let mut found: Option<u32> = None;
        let mut i: usize = 0;
        while i < adjs.len()
            invariant
                planets == self.map@,
                planets.contains_key(here),
                *adjs == planets[here].adj,
                0 <= i <= adjs@.len(),
                looked_up_known(planets, adjs@.take(i as int)),
                found == first_unexplored(planets, adjs@.take(i as int)),
            decreases adjs@.len() - i,
        {
            let n = adjs[i];
            assert(adjs@.take(i + 1).drop_last() =~= adjs@.take(i as int));
            assert(adjs@.take(i + 1).last() == n);
            if found.is_none() {
                if !self.map.contains_key(&n) {
                    proof {
                        lemma_looked_up_prefix(planets, adjs@, i + 1);
                    }
                    return None;
                }
                match self.map.get(&n).unwrap().cont {
                    PlanetStatus::Unexplored => {
                        found = Some(n);
                    },
                    _ => {},
                }
            }
            i = i + 1;
        }
        assert(adjs@.take(i as int) =~= adjs@);
        Some(found)
    }

    /// Whether planet `n` holds no weight that one more jump would overflow,
    /// once the products `prods` of the current planet are recorded.
    fn neighbour_fits(&self, n: u32, prods: &Vec<AnyResource>) -> (r: bool)
        requires
            self.wf(),
            prods@.len() > 0 ==> self.table().contains_key(self.here()),
        ensures
            r == forall|s: int| 0 <= s < RESOURCE_COUNT ==> (#[trigger] slot_of(
                with_products(self.table(), self.here(), prods@),
                n,
                s,
            ) matches Some(v) ==> v < i32::MAX),
    {
        let ghost w = with_products(self.table(), self.here(), prods@);
        if !self.weights.contains_key(&n) {
            assert forall|s: int| 0 <= s < RESOURCE_COUNT implies (#[trigger] slot_of(w, n, s) matches Some(v)
                ==> v < i32::MAX) by {
                assert(!w.contains_key(n));
            }
            return true;
        }
        assert(self.table().contains_key(n));
        let t = self.weights.get(&n).unwrap();
        assert(t@ == self.table()[n]);
        let mut s: usize = 0;
        while s < RESOURCE_COUNT
            invariant
                0 <= s <= RESOURCE_COUNT,
                w == with_products(self.table(), self.here(), prods@),
                self.wf(),
                self.table().contains_key(n),
                t@ == self.table()[n],
                prods@.len() > 0 ==> self.table().contains_key(self.here()),
                forall|k: int| 0 <= k < s ==> (#[trigger] slot_of(w, n, k) matches Some(v) ==> v < i32::MAX),
            decreases RESOURCE_COUNT - s,
        {
            let mut listed = false;
            let mut j: usize = 0;
            while j < prods.len()
                invariant
                    0 <= j <= prods@.len(),
                    0 <= s < RESOURCE_COUNT,
                    listed == prods@.take(j as int).contains(AnyResource::of_slot(s as int)),
                decreases prods@.len() - j,
            {
                proof {
                    lemma_slots_distinct(prods@[j as int], AnyResource::of_slot(s as int));
                    assert(AnyResource::of_slot(s as int).slot() == s as int);
                    lemma_take_contains(prods@, j as int, AnyResource::of_slot(s as int));
                }
                if prods[j].index() == s {
                    listed = true;
                }
                j = j + 1;
            }
            assert(prods@.take(j as int) =~= prods@);
            let zero = n == self.current && listed;
            if !zero {
                match t[s] {
                    Some(v) => {
                        if v == i32::MAX {
                            assert(slot_of(w, n, s as int) == Some(v));
                            return false;
                        }
                    },
                    None => {},
                }
            }
            assert(slot_of(w, n, s as int) matches Some(v) ==> v < i32::MAX);
            s = s + 1;
        }
        true
    }

    /// Whether none of the planets `adj` holds a weight that one more jump
    /// would overflow, once the products `prods` of the current planet are
    /// recorded.
    fn neighbours_fit(&self, adj: &Vec<u32>, prods: &Vec<AnyResource>) -> (r: bool)
        requires
            self.wf(),
            prods@.len() > 0 ==> self.table().contains_key(self.here()),
        ensures
            r == no_overflow(with_products(self.table(), self.here(), prods@), adj@),
    {
        let ghost w = with_products(self.table(), self.here(), prods@);
        let mut i: usize = 0;
        while i < adj.len()
            invariant
                0 <= i <= adj@.len(),
                w == with_products(self.table(), self.here(), prods@),
                self.wf(),
                prods@.len() > 0 ==> self.table().contains_key(self.here()),
                forall|k: int, s: int| 0 <= k < i && 0 <= s < RESOURCE_COUNT
                    ==> (#[trigger] slot_of(w, adj@[k], s) matches Some(v) ==> v < i32::MAX),
            decreases adj@.len() - i,
        {
            if !self.neighbour_fits(adj[i], prods) {
                return false;
            }
            i = i + 1;
        }
        true
    }

    /// Whether planet `id` can be brought up to date: see `update_safe`.
    pub fn can_update(&self, id: u32) -> (r: bool)
        requires
            self.wf(),
        ensures
            r == update_safe(self.planets(), self.table(), id),
    {
        if !self.map.contains_key(&id) {
            return false;
        }
        let planet = self.map.get(&id).unwrap();
        match planet.cont {
            PlanetStatus::Unexplored => false,
            PlanetStatus::Explored(_) => {
                let none: Vec<AnyResource> = Vec::new();
                assert(with_products(self.table(), self.here(), none@) == self.table());
                self.neighbours_fit(&planet.adj, &none)
            },
        }
    }

    /// Whether `explore` can record `new_adjs` and `prods` on the current
    /// planet: exactly its `requires`, for a memory in good order.
    pub fn can_explore(&self, new_adjs: &Vec<u32>, prods: &Vec<AnyResource>) -> (r: bool)
        requires
            self.wf(),
        ensures
            r == ({
                &&& self.planets().contains_key(self.here()) || new_adjs@.contains(self.here())
                &&& prods@.len() > 0 ==> self.table().contains_key(self.here())
                &&& no_overflow(
                    with_products(self.table(), self.here(), prods@),
                    (if self.planets().contains_key(self.here()) {
                        self.planets()[self.here()].adj@
                    } else {
                        Seq::<u32>::empty()
                    }) + new_adjs@,
                )
            }),
    {
        let ghost w = with_products(self.table(), self.here(), prods@);
        let here = self.current;
        let known = self.map.contains_key(&here);
        let mut listed = false;
        let mut i: usize = 0;
        while i < new_adjs.len()
            invariant
                0 <= i <= new_adjs@.len(),
                listed == new_adjs@.take(i as int).contains(here),
            decreases new_adjs@.len() - i,
        {
            proof {
                lemma_take_contains(new_adjs@, i as int, here);
            }
            if new_adjs[i] == here {
                listed = true;
            }
            i = i + 1;
        }
        assert(new_adjs@.take(i as int) =~= new_adjs@);
        if !known && !listed {
            return false;
        }
        if prods.len() > 0 && !self.weights.contains_key(&here) {
            return false;
        }
        let ghost base = if self.planets().contains_key(here) { self.planets()[here].adj@ } else { Seq::<u32>::empty() };
        let base_fits = if known {
            self.neighbours_fit(&self.map.get(&here).unwrap().adj, prods)
        } else {
            true
        };
        assert(base_fits == no_overflow(w, base));
        let new_fit = self.neighbours_fit(new_adjs, prods);
        let ghost all = base + new_adjs@;
        assert forall|k: int, s: int| 0 <= k < all.len() && 0 <= s < RESOURCE_COUNT
            && base_fits && new_fit implies (#[trigger] slot_of(w, all[k], s) matches Some(v) ==> v < i32::MAX) by {
            if k < base.len() {
                assert(all[k] == base[k]);
            } else {
                assert(all[k] == new_adjs@[k - base.len()]);
            }
        }
        if !base_fits {
            assert(!no_overflow(w, all)) by {
                let (k, s) = choose|k: int, s: int| 0 <= k < base.len() && 0 <= s < RESOURCE_COUNT
                    && !(#[trigger] slot_of(w, base[k], s) matches Some(v) ==> v < i32::MAX);
                assert(all[k] == base[k]);
                assert(!(slot_of(w, all[k], s) matches Some(v) ==> v < i32::MAX));
            }
        }
        if !new_fit {
            assert(!no_overflow(w, all)) by {
                let (k, s) = choose|k: int, s: int| 0 <= k < new_adjs@.len() && 0 <= s < RESOURCE_COUNT
                    && !(#[trigger] slot_of(w, new_adjs@[k], s) matches Some(v) ==> v < i32::MAX);
                assert(all[base.len() + k] == new_adjs@[k]);
                assert(!(slot_of(w, all[base.len() + k], s) matches Some(v) ==> v < i32::MAX));
            }
        }
        base_fits && new_fit
    }

    /// Whether planet `id` can be forgotten: see `forget_ok`.
    pub fn can_forget(&self, id: u32) -> (r: bool)
        ensures
            r == forget_ok(self.planets(), self.table(), id),
    {
        let ghost planets = self.planets();
        if !self.map.contains_key(&id) || !self.weights.contains_key(&id) {
            return false;
        }
        assert(self.table().contains_key(id));
        let adj = &self.map.get(&id).unwrap().adj;
        let mut i: usize = 0;
        while i < adj.len()
            invariant
                planets == self.map@,
                planets.contains_key(id),
                *adj == planets[id].adj,
                0 <= i <= adj@.len(),
                forall|k: int| 0 <= k < i ==> {
                    let n = #[trigger] planets[id].adj@[k];
                    &&& n != id
                    &&& planets.contains_key(n)
                    &&& trim_ok(planets[n].adj@, id, occurrences(planets[id].adj@, n))
                },
            decreases adj@.len() - i,
        {
            let n = adj[i];
            if n == id || !self.map.contains_key(&n) {
                return false;
            }
            let nadj = &self.map.get(&n).unwrap().adj;
            proof {
                lemma_occurrences_at(planets[id].adj@, i as int);
                lemma_trim_ok_only_last(planets[n].adj@, id, occurrences(planets[id].adj@, n));
            }
            let len = nadj.len();
            let last = if len > 0 { len - 1 } else { 0 };
            let mut j: usize = 0;
            while j < last
                invariant
                    planets == self.map@,
                    planets.contains_key(id),
                    planets.contains_key(n),
                    0 <= i < planets[id].adj@.len(),
                    planets[id].adj@[i as int] == n,
                    n != id,
                    trim_ok(planets[n].adj@, id, occurrences(planets[id].adj@, n)) <==> only_last(planets[n].adj@, id),
                    occurrences(planets[id].adj@, n) >= 1,
                    *nadj == planets[n].adj,
                    len == nadj@.len(),
                    last == if len > 0 { len - 1 } else { 0 },
                    0 <= j <= last,
                    forall|jj: int| 0 <= jj < j ==> nadj@[jj] != id,
                decreases last - j,
            {
                if nadj[j] == id {
                    proof {
                        assert(nadj@[j as int] == id);
                        assert(!only_last(planets[n].adj@, id));
                    }
                    return false;
                }
                j = j + 1;
            }
            assert(only_last(planets[n].adj@, id));
            i = i + 1;
        }
        true
    }

    pub fn get_current_id(&self) -> (id: u32)
        ensures
            id == self.here(),
    {
        self.current
    }

    /// Sets the planet the explorer is on.
    pub fn override_current_id(&mut self, id: u32)
        ensures
            final(self).here() == id,
            final(self).planets() == old(self).planets(),
            final(self).table() == old(self).table(),
    {
        self.current = id;
    }

    /// Adds an unexplored planet with an empty weight table.
    pub fn insert_planet(&mut self, id: u32)
        requires
            old(self).wf(),
        ensures
            final(self).wf(),
            final(self).here() == old(self).here(),
            final(self).planets() == old(self).planets().insert(id, final(self).planets()[id]),
            final(self).planets()[id].id == id,
            final(self).planets()[id].cont is Unexplored,
            final(self).planets()[id].adj@ == Seq::<u32>::empty(),
            final(self).table() == old(self).table().insert(id, Seq::new(RESOURCE_COUNT as nat, |s: int| None::<i32>)),
    {
        let ghost t0 = self.table();
        self.map.insert(id, Planet::new(id));
        let empty: Vec<Option<i32>> = vec![None; RESOURCE_COUNT];
        assert(empty@ =~= Seq::new(RESOURCE_COUNT as nat, |s: int| None::<i32>));
        self.weights.insert(id, empty);
        assert(self.table() =~= t0.insert(id, Seq::new(RESOURCE_COUNT as nat, |s: int| None::<i32>)));
    }

    /// Writes one weight of a planet's table.
    fn update_resource(&mut self, id: u32, resource: AnyResource, dist: i32)
        requires
            old(self).wf(),
            old(self).table().contains_key(id),
            dist >= 0,
        ensures
            final(self).wf(),
            final(self).here() == old(self).here(),
            final(self).planets() == old(self).planets(),
            final(self).table() == old(self).table().insert(
                id,
                old(self).table()[id].update(resource.slot(), Some(dist)),
            ),
    {
        let ghost t0 = self.table();
        let old_table = self.weights.get(&id).unwrap();
        let mut table = copy_table(old_table);
        let k = resource.index();
        table.set(k, Some(dist));
        self.weights.insert(id, table);
        assert(self.table() =~= t0.insert(id, t0[id].update(resource.slot(), Some(dist))));
    }

    /// Brings the weight table of planet `id` up to date from its neighbours.
    pub fn update_planet(&mut self, id: u32)
        requires
            old(self).wf(),
            update_safe(old(self).planets(), old(self).table(), id),
        ensures
            final(self).wf(),
            final(self).here() == old(self).here(),
            final(self).planets() == old(self).planets(),
            final(self).table() == upd(old(self).planets(), old(self).table(), id),
    {
        let ghost t0 = self.table();
        let ghost planets = self.planets();
        let new_weights = self.refreshed_table(id);
        proof {
            lemma_upd_wf(planets, t0, id);
        }
        self.weights.insert(id, new_weights);
        assert(self.table() =~= upd(planets, t0, id));
    }

    /// The weight `resource` would have on planet `id` once the planet is
    /// brought up to date, leaving the tables as they are.
    pub fn dist_after_update(&self, id: u32, resource: AnyResource) -> (d: Option<i32>)
        requires
            self.wf(),
            update_safe(self.planets(), self.table(), id),
        ensures
            d == refreshed(self.planets(), self.table(), id)[resource.slot()],
    {
        let t = self.refreshed_table(id);
        t[resource.index()]
    }

    /// The table planet `id` gets when it is brought up to date.
    fn refreshed_table(&self, id: u32) -> (new_weights: Vec<Option<i32>>)
        requires
            self.wf(),
            update_safe(self.planets(), self.table(), id),
        ensures
            new_weights@ == refreshed(self.planets(), self.table(), id),
    {
        let ghost t0 = self.table();
        let ghost planets = self.planets();
        let planet = self.map.get(&id).unwrap();
        let mut new_weights: Vec<Option<i32>> = vec![None; RESOURCE_COUNT];
        let mut k: usize = 0;
        while k < planet.adj.len()
            invariant
                planets.contains_key(id),
                *planet == planets[id],
                update_safe(planets, t0, id),
                t0 == self.table(),
                table_wf(t0),
                0 <= k <= planet.adj@.len(),
                new_weights@.len() == RESOURCE_COUNT,
                forall|s: int| 0 <= s < RESOURCE_COUNT
                    ==> #[trigger] new_weights@[s] == nearest_via(t0, planet.adj@.take(k as int), s),
            decreases planet.adj@.len() - k,
        {
            let n = planet.adj[k];
            assert(planet.adj@.take(k + 1).drop_last() =~= planet.adj@.take(k as int));
            assert(planet.adj@.take(k + 1).last() == n);
            match self.weights.get(&n) {
                None => {
                    assert forall|s: int| 0 <= s < RESOURCE_COUNT implies
                        #[trigger] new_weights@[s] == nearest_via(t0, planet.adj@.take(k + 1), s) by {
                        assert(slot_of(t0, n, s) is None);
                    }
                },
                Some(w) => {
                    assert(t0.contains_key(n));
                    assert forall|s: int| 0 <= s < RESOURCE_COUNT implies
                        (#[trigger] w@[s] matches Some(v) ==> v < i32::MAX) by {
                        assert(slot_of(t0, planet.adj@[k as int], s) == w@[s]);
                    }
                    let ghost before = new_weights@;
                    update_weights(w, &mut new_weights);
                    assert forall|s: int| 0 <= s < RESOURCE_COUNT implies
                        #[trigger] new_weights@[s] == nearest_via(t0, planet.adj@.take(k + 1), s) by {
                        assert(slot_of(t0, n, s) == w@[s]);
                        assert(before[s] == nearest_via(t0, planet.adj@.take(k as int), s));
                    }
                },
            }
            k = k + 1;
        }
        assert(planet.adj@.take(k as int) =~= planet.adj@);
        let products = planet.cont.get_content().unwrap();
        let mut j: usize = 0;
        while j < products.len()
            invariant
                planets.contains_key(id),
                *planet == planets[id],
                planet.cont is Explored,
                products@ == planet.cont->Explored_0.produces@,
                0 <= j <= products@.len(),
                new_weights@.len() == RESOURCE_COUNT,
                forall|s: int| 0 <= s < RESOURCE_COUNT ==> #[trigger] new_weights@[s] == if products@.take(j as int).contains(AnyResource::of_slot(s)) {
                    Some(0i32)
                } else {
                    nearest_via(t0, planet.adj@, s)
                },
            decreases products@.len() - j,
        {
            let r = products[j];
            let slot = r.index();
            new_weights.set(slot, Some(0));
            assert forall|s: int| 0 <= s < RESOURCE_COUNT implies #[trigger] new_weights@[s] == if products@.take(j + 1).contains(AnyResource::of_slot(s)) {
                Some(0i32)
            } else {
                nearest_via(t0, planet.adj@, s)
            } by {
                assert(products@.take(j + 1) =~= products@.take(j as int).push(r));
                if s == slot as int {
                    assert(AnyResource::of_slot(s) == r);
                    assert(products@.take(j + 1)[j as int] == r);
                } else {
                    assert(AnyResource::of_slot(s) != r);
                }
            }
            j = j + 1;
        }
        assert(products@.take(j as int) =~= products@);
        assert(new_weights@ =~= refreshed(planets, t0, id));
        new_weights
    }

    /// The believed number of jumps from the current planet to `resource`.
    pub fn dist_from_here(&self, resource: AnyResource) -> (d: Option<i32>)
        requires
            self.wf(),
            self.table().contains_key(self.here()),
        ensures
            d == self.table()[self.here()][resource.slot()],
    {
        assert(self.weights@.contains_key(self.current));
        let table = self.weights.get(&self.current).unwrap();
        assert(table@ == self.table()[self.current]);
        table[resource.index()]
    }

    /// Brings planet `current_planet` up to date and reads its weight for `resource`.
    pub fn get_dist(&mut self, current_planet: u32, resource: AnyResource) -> (d: Option<i32>)
        requires
            old(self).wf(),
            update_safe(old(self).planets(), old(self).table(), current_planet),
        ensures
            final(self).wf(),
            final(self).here() == old(self).here(),
            final(self).planets() == old(self).planets(),
            final(self).table() == upd(old(self).planets(), old(self).table(), current_planet),
            d == refreshed(old(self).planets(), old(self).table(), current_planet)[resource.slot()],
    {
        self.update_planet(current_planet);
        assert(self.table().contains_key(current_planet));
        assert(self.weights@.contains_key(current_planet));
        let table = self.weights.get(&current_planet).unwrap();
        assert(table@ == self.table()[current_planet]);
        table[resource.index()]
    }

    /// The neighbour of `start` one jump closer to `what`, if any, bringing
    /// `start` and each of its neighbours up to date on the way.
    fn next_step(&mut self, start: u32, what: AnyResource) -> (r: Option<u32>)
        requires
            old(self).wf(),
            step_from(old(self).planets(), old(self).table(), start, what.slot()) is Some,
        ensures
            final(self).wf(),
            final(self).here() == old(self).here(),
            final(self).planets() == old(self).planets(),
            (final(self).table(), r) == step_from(old(self).planets(), old(self).table(), start, what.slot())->0,
    {
        let ghost planets = self.planets();
        let ghost s = what.slot();
        let ghost expected = step_from(planets, self.table(), start, s)->0;
        let mut found_id: Option<u32> = None;
        match self.get_dist(start, what) {
            Some(dist) => {
                assert(self.table().contains_key(start));
                assert(self.table()[start][s] == Some(dist));
                assert(dist >= 0);
                let mut candidates: Vec<u32> = Vec::new();
                let adj = &self.map.get(&start).unwrap().adj;
                let mut i: usize = 0;
                while i < adj.len()
                    invariant
                        0 <= i <= adj@.len(),
                        candidates@ == adj@.take(i as int),
                    decreases adj@.len() - i,
                {
                    candidates.push(adj[i]);
                    i = i + 1;
                    assert(candidates@ =~= adj@.take(i as int));
                }
                assert(adj@.take(i as int) =~= adj@);
                assert(candidates@ == planets[start].adj@);
                while candidates.len() > 0
                    invariant
                        self.wf(),
                        self.here() == old(self).here(),
                        self.planets() == planets,
                        dist >= 0,
                        s == what.slot(),
                        scan(planets, self.table(), candidates@, s, (dist - 1) as i32, found_id) == Some(expected),
                    decreases candidates@.len(),
                {
                    let ghost cands = candidates@;
                    let ghost w = self.table();
                    let candidate = candidates.pop().unwrap();
                    assert(candidate == cands.last());
                    assert(candidates@ == cands.drop_last());
                    assert(update_safe(planets, w, candidate));
                    let d = self.get_dist(candidate, what);
                    assert(d == upd(planets, w, candidate)[candidate][s]);
                    if d == Some(dist - 1) {
                        found_id = Some(candidate);
                    }
                }
                found_id
            },
            None => None,
        }
    }

    /// The path from planet `start` to the nearest planet believed to provide
    /// `what`, following the weights down one jump at a time.
    pub fn path_sanity(&mut self, start: u32, what: AnyResource) -> (r: Option<Path>)
        requires
            old(self).wf(),
            route_exists(old(self).planets(), old(self).table(), start, what.slot()),
        ensures
            final(self).wf(),
            final(self).here() == old(self).here(),
            final(self).planets() == old(self).planets(),
            r is Some,
            (final(self).table(), r->0@) == route_of(old(self).planets(), old(self).table(), start, what.slot()),
    {
        let ghost planets = self.planets();
        let ghost s = what.slot();
        let ghost t0 = self.table();
        let ghost fuel = choose|f: nat| #[trigger] route(planets, t0, start, s, f) is Some;
        let ghost target = route(planets, t0, start, s, fuel)->0;
        match self.get_dist(start, what) {
            Some(dist) => {
                if dist == 0 {
                    Some(Vec::new())
                } else {
                    let ghost t1 = self.table();
                    let mut out_path: Path = Vec::new();
                    let mut current = self.next_step(start, what);
                    let ghost mut g: nat = (fuel - 1) as nat;
                    while current.is_some()
                        invariant
                            self.wf(),
                            self.here() == old(self).here(),
                            self.planets() == planets,
                            s == what.slot(),
                            match current {
                                Some(c) => walk(planets, self.table(), c, s, g) is Some
                                    && (walk(planets, self.table(), c, s, g)->0).0 == target.0
                                    && target.1 == out_path@ + seq![c] + (walk(planets, self.table(), c, s, g)->0).1,
                                None => self.table() == target.0 && out_path@ == target.1,
                            },
                        decreases g,
                    {
                        let c = current.unwrap();
                        let ghost w = self.table();
                        let ghost rest = (walk(planets, w, c, s, g)->0).1;
                        assert(g > 0);
                        assert(step_from(planets, w, c, s) is Some);
                        out_path.push(c);
                        current = self.next_step(c, what);
                        proof {
                            match current {
                                Some(c2) => {
                                    assert(rest == seq![c2] + (walk(planets, self.table(), c2, s, (g - 1) as nat)->0).1);
                                    assert(target.1 =~= out_path@ + seq![c2] + (walk(planets, self.table(), c2, s, (g - 1) as nat)->0).1);
                                },
                                None => {
                                    assert(rest == Seq::<u32>::empty());
                                    assert(target.1 =~= out_path@);
                                },
                            }
                            g = (g - 1) as nat;
                        }
                    }
                    Some(out_path)
                }
            },
            None => None,
        }
    }

    /// Forgets planet `id`: its weight table, its entry and every mention of
    /// it at the end of its neighbours' lists. The weights of other planets
    /// are left as they are.
    pub fn forget_planet(&mut self, id: u32)
        requires
            old(self).wf(),
            forget_ok(old(self).planets(), old(self).table(), id),
        ensures
            final(self).wf(),
            final(self).here() == old(self).here(),
            final(self).table() == old(self).table().remove(id),
            final(self).planets().dom() == old(self).planets().dom().remove(id),
            forall|k: u32| #[trigger] final(self).planets().contains_key(k) ==> {
                &&& final(self).planets()[k].id == old(self).planets()[k].id
                &&& final(self).planets()[k].cont == old(self).planets()[k].cont
                &&& final(self).planets()[k].adj@ == trim(
                    old(self).planets()[k].adj@,
                    id,
                    occurrences(old(self).planets()[id].adj@, k),
                )
            },
    {
        let ghost planets0 = self.planets();
        let ghost t0 = self.table();
        self.weights.remove(&id);
        assert(self.table() =~= t0.remove(id));
        let temp = self.map.remove(&id).unwrap();
        let ghost nbrs = temp.adj@;
        // Remove the forgotten planet from its neighbours' lists.
        let mut a: usize = 0;
        while a < temp.adj.len()
            invariant
                nbrs == temp.adj@,
                nbrs == planets0[id].adj@,
                forget_ok(planets0, t0, id),
                0 <= a <= nbrs.len(),
                self.table() == t0.remove(id),
                table_wf(t0.remove(id)),
                self.here() == old(self).here(),
                self.planets().dom() == planets0.dom().remove(id),
                forall|x: u32| #[trigger] self.planets().contains_key(x) ==> {
                    &&& self.planets()[x].id == planets0[x].id
                    &&& self.planets()[x].cont == planets0[x].cont
                    &&& self.planets()[x].adj@ == trim(planets0[x].adj@, id, occurrences(nbrs.take(a as int), x))
                },
            decreases nbrs.len() - a,
        {
            let i = temp.adj[a];
            let ghost cnt = occurrences(nbrs.take(a as int), i);
            proof {
                lemma_occurrences_step(nbrs, a as int, i);
                lemma_occurrences_prefix(nbrs, a + 1, i);
                assert(planets0.contains_key(i) && i != id);
                assert(trim_ok(planets0[i].adj@, id, occurrences(nbrs, i)));
                lemma_trim_ok_mono(planets0[i].adj@, id, cnt + 1, occurrences(nbrs, i));
            }
            assert(self.planets().contains_key(i));
            let mut planet = self.map.remove(&i).unwrap();
            let ghost before = planet.adj@;
            assert(before == trim(planets0[i].adj@, id, cnt));
            let n = planet.adj.len();
            let mut ii: usize = 0;
            let mut removed = false;
            while ii < n
                invariant
                    n == before.len(),
                    0 <= ii <= n,
                    forall|j: int| 0 <= j < before.len() - 1 ==> before[j] != id,
                    !removed ==> planet.adj@ == before,
                    !removed ==> forall|j: int| 0 <= j < ii ==> before[j] != id,
                    removed ==> ii == n && n > 0 && before.last() == id && planet.adj@ == before.drop_last(),
                    planets0.contains_key(i),
                    planet.id == planets0[i].id,
                    planet.cont == planets0[i].cont,
                decreases n - ii,
            {
                if planet.adj[ii] == id {
                    planet.adj.remove(ii);
                    removed = true;
                }
                ii = ii + 1;
            }
            assert(planet.adj@ == trim(planets0[i].adj@, id, cnt + 1));
            self.map.insert(i, planet);
            a = a + 1;
            proof {
                assert forall|x: u32| #[trigger] self.planets().contains_key(x) implies {
                    &&& self.planets()[x].id == planets0[x].id
                    &&& self.planets()[x].cont == planets0[x].cont
                    &&& self.planets()[x].adj@ == trim(planets0[x].adj@, id, occurrences(nbrs.take(a as int), x))
                } by {
                    lemma_occurrences_step(nbrs, (a - 1) as int, x);
                }
            }
        }
        assert(nbrs.take(a as int) =~= nbrs);
    }

    /// Records what was learnt on arriving at the current planet: its
    /// neighbours, which join the map as unexplored planets when new, and what
    /// it produces, which is then zero jumps away; then brings the planet's
    /// weight table up to date.
    pub fn explore(&mut self, new_adjs: Vec<u32>, prods: Vec<AnyResource>)
        requires
            old(self).wf(),
            old(self).planets().contains_key(old(self).here()) || new_adjs@.contains(old(self).here()),
            prods@.len() > 0 ==> old(self).table().contains_key(old(self).here()),
            no_overflow(
                with_products(old(self).table(), old(self).here(), prods@),
                (if old(self).planets().contains_key(old(self).here()) {
                    old(self).planets()[old(self).here()].adj@
                } else {
                    Seq::<u32>::empty()
                }) + new_adjs@,
            ),
        ensures
            final(self).wf(),
            final(self).here() == old(self).here(),
            forall|k: u32| #[trigger] final(self).planets().contains_key(k)
                <==> (old(self).planets().contains_key(k) || new_adjs@.contains(k)),
            forall|k: u32| #[trigger] final(self).planets().contains_key(k) && k != old(self).here() ==> {
                if old(self).planets().contains_key(k) {
                    final(self).planets()[k] == old(self).planets()[k]
                } else {
                    &&& final(self).planets()[k].id == k
                    &&& final(self).planets()[k].cont is Unexplored
                    &&& final(self).planets()[k].adj@ == Seq::<u32>::empty()
                }
            },
            final(self).planets()[old(self).here()].id == old(self).here(),
            final(self).planets()[old(self).here()].cont is Explored,
            final(self).planets()[old(self).here()].cont->Explored_0.produces@ == distinct(prods@),
            final(self).planets()[old(self).here()].adj@ == (if old(self).planets().contains_key(old(self).here()) {
                old(self).planets()[old(self).here()].adj@
            } else {
                Seq::<u32>::empty()
            }) + new_adjs@,
            final(self).table() == upd(
                final(self).planets(),
                with_products(old(self).table(), old(self).here(), prods@),
                old(self).here(),
            ),
            forall|r: AnyResource| #[trigger] prods@.contains(r)
                ==> final(self).table()[old(self).here()][r.slot()] == Some(0i32),
    {
        let ghost planets0 = self.planets();
        let ghost t0 = self.table();
        let now = self.current;
        let ghost base = if planets0.contains_key(now) { planets0[now].adj@ } else { Seq::<u32>::empty() };
        let mut i: usize = 0;
        while i < new_adjs.len()
            invariant
                0 <= i <= new_adjs@.len(),
                self.here() == now,
                self.table() == t0,
                forall|k: u32| #[trigger] self.planets().contains_key(k)
                    <==> (planets0.contains_key(k) || new_adjs@.take(i as int).contains(k)),
                forall|k: u32| #[trigger] self.planets().contains_key(k) ==> self.planets()[k].id == k,
                forall|k: u32| #[trigger] self.planets().contains_key(k) ==> {
                    if planets0.contains_key(k) {
                        self.planets()[k] == planets0[k]
                    } else {
                        &&& self.planets()[k].id == k
                        &&& self.planets()[k].cont is Unexplored
                        &&& self.planets()[k].adj@ == Seq::<u32>::empty()
                    }
                },
            decreases new_adjs@.len() - i,
        {
            let n = new_adjs[i];
            let ghost prev = self.planets();
            if !self.map.contains_key(&n) {
                self.map.insert(n, Planet::new(n));
            }
            i = i + 1;
            let ghost pre = new_adjs@.take(i - 1);
            let ghost cur = new_adjs@.take(i as int);
            assert(cur =~= pre.push(n));
            assert forall|k: u32| #[trigger] self.planets().contains_key(k)
                <==> (planets0.contains_key(k) || cur.contains(k)) by {
                if pre.contains(k) {
                    let j = choose|j: int| 0 <= j < pre.len() && pre[j] == k;
                    assert(cur[j] == k);
                }
                if k == n {
                    assert(cur[i - 1] == n);
                }
                if cur.contains(k) {
                    let j = choose|j: int| 0 <= j < cur.len() && cur[j] == k;
                    if j < i - 1 {
                        assert(pre[j] == k);
                    }
                }
            }
            assert forall|k: u32| #[trigger] self.planets().contains_key(k) implies self.planets()[k].id == k by {
                if k != n {
                    assert(prev.contains_key(k));
                }
            }
        }
        assert(new_adjs@.take(i as int) =~= new_adjs@);
        assert(self.planets().contains_key(now));
        let ghost planets1 = self.planets();
        assert(planets1[now].adj@ == base);
        let mut here = self.map.remove(&now).unwrap();
        let mut adds = new_adjs;
        here.adj.append(&mut adds);
        let products = prods.clone();
        assert(products@ =~= prods@);
        let content = PlanetContent::new(prods);
        here.explored(content);
        self.map.insert(now, here);
        let ghost planets2 = self.planets();
        assert forall|k: u32| #[trigger] planets2.contains_key(k) implies (planets2[k].cont matches
            PlanetStatus::Explored(c) ==> c.produces@.no_duplicates()) by {
            if k != now {
                assert(planets1.contains_key(k));
                if planets0.contains_key(k) {
                    assert(planets1[k] == planets0[k]);
                }
            }
        }
        let mut p: usize = 0;
        while p < products.len()
            invariant
                0 <= p <= products@.len(),
                planets2.contains_key(now),
                forall|k: u32| #[trigger] planets2.contains_key(k) ==> planets2[k].id == k,
                forall|k: u32| #[trigger] planets2.contains_key(k) ==> (planets2[k].cont matches
                    PlanetStatus::Explored(c) ==> c.produces@.no_duplicates()),
                products@ == prods@,
                planets2[now].cont->Explored_0.produces@ == distinct(prods@),
                self.planets() == planets2,
                self.here() == now,
                table_wf(self.table()),
                products@.len() > 0 ==> t0.contains_key(now),
                p == 0 ==> self.table() == t0,
                p > 0 ==> self.table() == t0.insert(now, Seq::new(
                    RESOURCE_COUNT as nat,
                    |s: int| if products@.take(p as int).contains(AnyResource::of_slot(s)) { Some(0i32) } else { t0[now][s] },
                )),
            decreases products@.len() - p,
        {
            let r = products[p];
            assert(self.table().contains_key(now));
            self.update_resource(now, r, 0);
            p = p + 1;
            let ghost cur = Seq::new(
                RESOURCE_COUNT as nat,
                |s: int| if products@.take(p as int).contains(AnyResource::of_slot(s)) { Some(0i32) } else { t0[now][s] },
            );
            assert(products@.take(p as int) =~= products@.take(p - 1).push(r));
            assert forall|s: int| 0 <= s < RESOURCE_COUNT implies #[trigger] self.table()[now][s] == cur[s] by {
                if s == r.slot() {
                    assert(products@.take(p as int)[p - 1] == r);
                } else {
                    assert(AnyResource::of_slot(s) != r || s == r.slot());
                }
            }
            assert(self.table()[now] =~= cur);
            assert(self.table() =~= t0.insert(now, cur));
        }
        assert(products@.take(p as int) =~= products@);
        assert(self.table() =~= with_products(t0, now, products@));
        self.update_planet(now);
        proof {
            lemma_distinct(prods@);
        }
        assert forall|r: AnyResource| #[trigger] prods@.contains(r)
            implies self.table()[now][r.slot()] == Some(0i32) by {
            assert(distinct(prods@).contains(r));
            assert(AnyResource::of_slot(r.slot()) == r);
            assert(provides(self.planets()[now], r));
        }
    }
}

/// Most moves an exploration makes before giving up: twice the number of
/// moves a random search is expected to take.
pub const MAX_SCOUT_MOVES: i32 = 30;

/// The part of the explorer that moves it between planets.
pub struct Thrusters {
    pub memory: Memory,
}

/// What a journey along a path asks for next.
pub enum TripStep {
    /// Request a move to this planet.
    Request(u32),
    /// The journey is over: the moves made, or why it stopped and the moves
    /// made before.
    Done(Result<i32, (InterruptOrder, i32)>),
}

/// A journey along a path, one requested move at a time.
pub struct Trip {
    path: Path,
    moves: i32,
    stopped: Option<InterruptOrder>,
}

impl Trip {
    /// The planets still to visit.
    pub closed spec fn route(&self) -> Seq<u32> {
        self.path@
    }

    /// The moves made so far.
    pub closed spec fn made(&self) -> int {
        self.moves as int
    }

    /// Why the journey stopped, if it did.
    pub closed spec fn stop(&self) -> Option<InterruptOrder> {
        self.stopped
    }

    pub closed spec fn wf(&self) -> bool {
        &&& 0 <= self.moves <= self.path@.len()
        &&& self.path@.len() <= i32::MAX
    }

    /// A journey along `path` with no move made yet.
    pub fn new(path: Path) -> (t: Trip)
        requires
            path@.len() <= i32::MAX,
        ensures
            t.wf(),
            t.route() == path@,
            t.made() == 0,
            t.stop() is None,
    {
        Trip { path, moves: 0, stopped: None }
    }

    /// The next thing to do: request the next planet, or end the journey.
    pub fn next(&self) -> (step: TripStep)
        requires
            self.wf(),
        ensures
            match step {
                TripStep::Request(p) => self.stop() is None && self.made() < self.route().len()
                    && p == self.route()[self.made()],
                TripStep::Done(Ok(n)) => self.stop() is None && self.made() == self.route().len()
                    && n == self.made(),
                TripStep::Done(Err((o, n))) => self.stop() == Some(o) && n == self.made(),
            },
    {
        match self.stopped {
            Some(o) => TripStep::Done(Err((o, self.moves))),
            None => {
                let i = self.moves as usize;
                if i < self.path.len() {
                    TripStep::Request(self.path[i])
                } else {
                    TripStep::Done(Ok(self.moves))
                }
            },
        }
    }

    /// Records how the last requested move went: one more move made, or the
    /// order that stopped the journey.
    pub fn record(&mut self, outcome: Result<(), InterruptOrder>)
        requires
            old(self).wf(),
            old(self).stop() is None,
            old(self).made() < old(self).route().len(),
        ensures
            final(self).wf(),
            final(self).route() == old(self).route(),
            match outcome {
                Ok(()) => final(self).made() == old(self).made() + 1 && final(self).stop() is None,
                Err(o) => final(self).made() == old(self).made() && final(self).stop() == Some(o),
            },
    {
        match outcome {
            Ok(()) => {
                self.moves = self.moves + 1;
            },
            Err(o) => {
                self.stopped = Some(o);
            },
        }
    }
}

/// What an exploration step asks for.
pub enum ScoutStep {
    /// Stop exploring: the resource is known, or the move budget is spent.
    Finished(i32),
    /// Move to this unexplored neighbour; the moves counted so far.
    Unexplored(u32, i32),
    /// Move to this neighbour, drawn at random; the moves counted so far and
    /// the random draw that chose it.
    Random(u32, i32, i32),
    /// The random draw selected no neighbour; the moves counted so far and
    /// the draw.
    Stuck(i32, i32),
}

/// The first neighbour of `here` that is unexplored, if any.
pub open spec fn first_unexplored(planets: Map<u32, Planet>, adj: Seq<u32>) -> Option<u32>
    decreases adj.len(),
{
    if adj.len() == 0 {
        None
    } else {
        match first_unexplored(planets, adj.drop_last()) {
            Some(p) => Some(p),
            None => if planets[adj.last()].cont is Unexplored { Some(adj.last()) } else { None },
        }
    }
}

/// The neighbours that the search for the first unexplored one looks up are
/// on the map: each one met while no unexplored neighbour has been found.
pub open spec fn looked_up_known(planets: Map<u32, Planet>, adj: Seq<u32>) -> bool
    decreases adj.len(),
{
    if adj.len() == 0 {
        true
    } else {
        &&& looked_up_known(planets, adj.drop_last())
        &&& first_unexplored(planets, adj.drop_last()) is None ==> planets.contains_key(adj.last())
    }
}

/// The search looks up no more neighbours along a prefix than along the
/// whole list.
proof fn lemma_looked_up_prefix(planets: Map<u32, Planet>, adj: Seq<u32>, k: int)
    requires
        0 <= k <= adj.len(),
    ensures
        looked_up_known(planets, adj) ==> looked_up_known(planets, adj.take(k)),
    decreases adj.len() - k,
{
    if k == adj.len() {
        assert(adj.take(k) =~= adj);
    } else {
        lemma_looked_up_prefix(planets, adj, k + 1);
        assert(adj.take(k + 1).drop_last() =~= adj.take(k));
    }
}

/// Calls `rand::random::<i32>()`: a value drawn from the thread's random
/// generator, of which nothing is promised.
#[verifier::external_body]
fn draw_i32() -> i32 {
    rand::random::<i32>()
}

/// The remainder of `a` by `b` rounded towards zero, as Rust's `%` computes
/// it: it takes the sign of `a`.
pub open spec fn trunc_rem(a: int, b: int) -> int {
    if a >= 0 { a % b } else { -((-a) % b) }
}

/// The neighbour index a random draw selects: the draw's remainder by the
/// number of neighbours.
pub fn random_index(draw: i32, len: usize) -> (k: usize)
    requires
        0 < len <= i32::MAX,
        trunc_rem(draw as int, len as int) >= 0,
    ensures
        k as int == trunc_rem(draw as int, len as int),
        k < len,
{
    let n = len as i32;
    let m = draw % n;
    assert(m as int == trunc_rem(draw as int, len as int));
    assert(0 <= trunc_rem(draw as int, len as int) < len) by (nonlinear_arith)
        requires
            len > 0,
            trunc_rem(draw as int, len as int) >= 0,
            trunc_rem(draw as int, len as int) == if draw >= 0 {
                (draw as int) % (len as int)
            } else {
                -((-(draw as int)) % (len as int))
            },
    ;
    m as usize
}

/// The neighbour index a draw selects among `len`: the draw's remainder by
/// `len`, when that remainder is not negative.
pub open spec fn picked(draw: i32, len: usize) -> Option<usize> {
    if trunc_rem(draw as int, len as int) >= 0 {
        Some(trunc_rem(draw as int, len as int) as usize)
    } else {
        None
    }
}

/// The neighbour index a draw selects among `len`, or `None` when the draw's
/// remainder is negative and selects no neighbour.
pub fn pick_index(draw: i32, len: usize) -> (k: Option<usize>)
    requires
        0 < len <= i32::MAX,
    ensures
        k == picked(draw, len),
        k matches Some(i) ==> i < len,
{
    let n = len as i32;
    let m = draw % n;
    assert(m as int == trunc_rem(draw as int, len as int));
    if m >= 0 {
        Some(random_index(draw, len))
    } else {
        None
    }
}

/// Draws a random number and the neighbour index among `len` it selects.
pub fn pick_random(len: usize) -> (r: (i32, Option<usize>))
    requires
        0 < len <= i32::MAX,
    ensures
        r.1 == picked(r.0, len),
        r.1 matches Some(i) ==> i < len,
{
    let draw = draw_i32();
    (draw, pick_index(draw, len))
}

impl Thrusters {
    pub fn new(memory: Memory) -> (t: Thrusters)
        ensures
            t.memory == memory,
    {
        Thrusters { memory }
    }

    /// The path from the current planet to the nearest planet believed to
    /// provide `what`.
    pub fn make_path(&mut self, what: AnyResource) -> (r: Option<Path>)
        requires
            old(self).memory.wf(),
            route_exists(old(self).memory.planets(), old(self).memory.table(), old(self).memory.here(), what.slot()),
        ensures
            final(self).memory.wf(),
            final(self).memory.here() == old(self).memory.here(),
            final(self).memory.planets() == old(self).memory.planets(),
            r is Some,
            (final(self).memory.table(), r->0@) == route_of(
                old(self).memory.planets(),
                old(self).memory.table(),
                old(self).memory.here(),
                what.slot(),
            ),
    {
        let now = self.memory.get_current_id();
        self.memory.path_sanity(now, what)
    }

    /// The next step of an exploration for `what`, `counter` moves in: stop
    /// once the resource has a weight here or the budget is spent, else go to
    /// the first unexplored neighbour, else to a neighbour drawn at random.
    pub fn scout_step(&self, what: AnyResource, counter: i32) -> (step: ScoutStep)
        requires
            self.memory.wf(),
            self.memory.table().contains_key(self.memory.here()),
            0 <= counter,
            self.memory.table()[self.memory.here()][what.slot()] is None && counter <= MAX_SCOUT_MOVES ==> {
                let planets = self.memory.planets();
                let here = self.memory.here();
                &&& planets.contains_key(here)
                &&& looked_up_known(planets, planets[here].adj@)
                &&& first_unexplored(planets, planets[here].adj@) is None
                    ==> 0 < planets[here].adj@.len() <= i32::MAX
            },
        ensures
            ({
                let planets = self.memory.planets();
                let here = self.memory.here();
                let searching = self.memory.table()[here][what.slot()] is None && counter <= MAX_SCOUT_MOVES;
                match step {
                    ScoutStep::Finished(n) => !searching && n == counter,
                    ScoutStep::Unexplored(p, n) => searching && n == counter + 1
                        && first_unexplored(planets, planets[here].adj@) == Some(p),
                    ScoutStep::Random(p, n, d) => searching && n == counter + 1
                        && first_unexplored(planets, planets[here].adj@) is None
                        && picked(d, planets[here].adj@.len() as usize) is Some
                        && p == planets[here].adj@[picked(d, planets[here].adj@.len() as usize)->0 as int],
                    ScoutStep::Stuck(n, d) => searching && n == counter + 1
                        && first_unexplored(planets, planets[here].adj@) is None
                        && picked(d, planets[here].adj@.len() as usize) is None,
                }
            }),
            step !is Finished ==> counter < MAX_SCOUT_MOVES + 1,
    {
        if self.memory.dist_from_here(what).is_some() || counter > MAX_SCOUT_MOVES {
            return ScoutStep::Finished(counter);
        }
        let counter = counter + 1;
        let here = self.memory.get_current_id();
        let found = match self.memory.first_unexplored_at(here) {
            Some(f) => f,
            None => None,
        };
        let adjs = &self.memory.map.get(&here).unwrap().adj;
        match found {
            Some(p) => ScoutStep::Unexplored(p, counter),
            None => {
                let (draw, k) = pick_random(adjs.len());
                match k {
                    Some(k) => ScoutStep::Random(adjs[k], counter, draw),
                    None => ScoutStep::Stuck(counter, draw),
                }
            },
        }
    }

    /// Whether `scout_step` can be taken for `what` with `counter` moves made:
    /// exactly its `requires`, for a memory in good order.
    pub fn can_scout(&self, what: AnyResource, counter: i32) -> (r: bool)
        requires
            self.memory.wf(),
        ensures
            r == ({
                let planets = self.memory.planets();
                let here = self.memory.here();
                &&& self.memory.table().contains_key(here)
                &&& 0 <= counter
                &&& self.memory.table()[here][what.slot()] is None && counter <= MAX_SCOUT_MOVES ==> {
                    &&& planets.contains_key(here)
                    &&& looked_up_known(planets, planets[here].adj@)
                    &&& first_unexplored(planets, planets[here].adj@) is None
                        ==> 0 < planets[here].adj@.len() <= i32::MAX
                }
            }),
    {
        let here = self.memory.get_current_id();
        if !self.memory.has_weights(here) || counter < 0 {
            return false;
        }
        if self.memory.dist_from_here(what).is_some() || counter > MAX_SCOUT_MOVES {
            return true;
        }
        if !self.memory.map.contains_key(&here) {
            return false;
        }
        match self.memory.first_unexplored_at(here) {
            None => false,
            Some(Some(_)) => true,
            Some(None) => {
                let n = self.memory.map.get(&here).unwrap().adj.len();
                0 < n && n <= 2147483647usize
            },
        }
    }

    /// What follows a refused move to an unexplored neighbour: the neighbour
    /// is forgotten and the exploration ends with the order and the moves
    /// made before.
    pub fn scout_unexplored_refused(&mut self, target: u32, order: InterruptOrder, counter: i32) -> (r: (InterruptOrder, i32))
        requires
            old(self).memory.wf(),
            forget_ok(old(self).memory.planets(), old(self).memory.table(), target),
            counter >= 1,
        ensures
            final(self).memory.wf(),
            final(self).memory.here() == old(self).memory.here(),
            final(self).memory.table() == old(self).memory.table().remove(target),
            final(self).memory.planets().dom() == old(self).memory.planets().dom().remove(target),
            forall|k: u32| #[trigger] final(self).memory.planets().contains_key(k) ==> {
                &&& final(self).memory.planets()[k].id == old(self).memory.planets()[k].id
                &&& final(self).memory.planets()[k].cont == old(self).memory.planets()[k].cont
                &&& final(self).memory.planets()[k].adj@ == trim(
                    old(self).memory.planets()[k].adj@,
                    target,
                    occurrences(old(self).memory.planets()[target].adj@, k),
                )
            },
            r.0 == order,
            r.1 == counter - 1,
    {
        self.memory.forget_planet(target);
        (order, counter - 1)
    }

    /// What follows a move to a randomly drawn neighbour: keep exploring when
    /// it was granted; otherwise stop with the order and the moves counted,
    /// forgetting the neighbour when the refusal came with no order.
    pub fn scout_random_outcome(&mut self, target: u32, outcome: Result<(), InterruptOrder>, counter: i32)
        -> (r: Option<(InterruptOrder, i32)>)
        requires
            old(self).memory.wf(),
            outcome == Err::<(), InterruptOrder>(InterruptOrder::NoOrder)
                ==> forget_ok(old(self).memory.planets(), old(self).memory.table(), target),
        ensures
            final(self).memory.wf(),
            final(self).memory.here() == old(self).memory.here(),
            match outcome {
                Ok(()) => r is None && final(self).memory == old(self).memory,
                Err(o) => r == Some((o, counter)) && if o == InterruptOrder::NoOrder {
                    &&& final(self).memory.table() == old(self).memory.table().remove(target)
                    &&& final(self).memory.planets().dom() == old(self).memory.planets().dom().remove(target)
                    &&& forall|k: u32| #[trigger] final(self).memory.planets().contains_key(k) ==> {
                        &&& final(self).memory.planets()[k].id == old(self).memory.planets()[k].id
                        &&& final(self).memory.planets()[k].cont == old(self).memory.planets()[k].cont
                        &&& final(self).memory.planets()[k].adj@ == trim(
                            old(self).memory.planets()[k].adj@,
                            target,
                            occurrences(old(self).memory.planets()[target].adj@, k),
                        )
                    }
                } else {
                    final(self).memory == old(self).memory
                },
            },
    {
        match outcome {
            Ok(()) => None,
            Err(o) => {
                if o == InterruptOrder::NoOrder {
                    self.memory.forget_planet(target);
                }
                Some((o, counter))
            },
        }
    }
}

/// Law: an exploration requests at most `MAX_SCOUT_MOVES + 1` moves. The
/// counts handed to `scout_step` start at zero, and a step that goes on
/// returns one more than a count within the budget; so a run of counts, all
/// but the last of which went on, holds at most `MAX_SCOUT_MOVES + 2` counts,
/// the i-th being i, and the last count, the one the exploration reports, is
/// between zero and `MAX_SCOUT_MOVES + 1`.
pub proof fn lemma_scout_budget(counts: Seq<i32>)
    requires
        counts.len() > 0,
        counts[0] == 0,
        forall|i: int| 0 <= i < counts.len() - 1 ==> #[trigger] counts[i] < MAX_SCOUT_MOVES + 1
            && counts[i + 1] == counts[i] + 1,
    ensures
        counts.len() <= MAX_SCOUT_MOVES + 2,
        forall|i: int| 0 <= i < counts.len() ==> #[trigger] counts[i] == i,
        0 <= counts.last() <= MAX_SCOUT_MOVES + 1,
    decreases counts.len(),
{
    if counts.len() > 1 {
        let d = counts.drop_last();
        assert forall|i: int| 0 <= i < d.len() - 1 implies #[trigger] d[i] < MAX_SCOUT_MOVES + 1
            && d[i + 1] == d[i] + 1 by {
            assert(counts[i] < MAX_SCOUT_MOVES + 1 && counts[i + 1] == counts[i] + 1);
            assert(d[i] == counts[i]);
            assert(d[i + 1] == counts[i + 1]);
        }
        lemma_scout_budget(d);
        let j = counts.len() - 2;
        assert(counts[j] == d[j]);
        assert(counts[j + 1] == counts[j] + 1);
        assert forall|i: int| 0 <= i < counts.len() implies #[trigger] counts[i] == i by {
            if i < d.len() {
                assert(counts[i] == d[i]);
            }
        }
    }
}

/// Folds one neighbour's table into the best weights found so far.
fn update_weights(w1: &Vec<Option<i32>>, w2: &mut Vec<Option<i32>>)
    requires
        w1@.len() == RESOURCE_COUNT,
        old(w2)@.len() == RESOURCE_COUNT,
        forall|s: int| 0 <= s < RESOURCE_COUNT ==> (#[trigger] w1@[s] matches Some(v) ==> v < i32::MAX),
    ensures
        final(w2)@.len() == RESOURCE_COUNT,
        forall|s: int| 0 <= s < RESOURCE_COUNT ==> #[trigger] final(w2)@[s] == combine(w1@[s], old(w2)@[s]),
{
    let ghost start = w2@;
    let mut i: usize = 0;
    while i < RESOURCE_COUNT
        invariant
            0 <= i <= RESOURCE_COUNT,
            w1@.len() == RESOURCE_COUNT,
            start.len() == RESOURCE_COUNT,
            forall|s: int| 0 <= s < RESOURCE_COUNT ==> (#[trigger] w1@[s] matches Some(v) ==> v < i32::MAX),
            w2@.len() == RESOURCE_COUNT,
            forall|s: int| 0 <= s < i ==> #[trigger] w2@[s] == combine(w1@[s], start[s]),
            forall|s: int| i <= s < RESOURCE_COUNT ==> #[trigger] w2@[s] == start[s],
        decreases RESOURCE_COUNT - i,
    {
        match (w1[i], w2[i]) {
            (None, _) => {},
            (Some(w), None) => {
                w2.set(i, Some(w + 1));
            },
            (Some(a), Some(b)) => {
                if a + 1 < b {
                    w2.set(i, Some(a + 1));
                }
            },
        }
        i = i + 1;
    }
}

/// A copy of a weight table.
fn copy_table(t: &Vec<Option<i32>>) -> (c: Vec<Option<i32>>)
    ensures
        c@ == t@,
{
    let mut c: Vec<Option<i32>> = Vec::new();
    let mut i: usize = 0;
    while i < t.len()
        invariant
            0 <= i <= t@.len(),
            c@ == t@.take(i as int),
        decreases t@.len() - i,
    {
        c.push(t[i]);
        i = i + 1;
        assert(c@ =~= t@.take(i as int));
    }
    assert(t@.take(i as int) =~= t@);
    c
}

} // verus!
