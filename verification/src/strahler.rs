//! Strahler stream orders over the upstream units of a watershed.
//!
//! Each unit names the unit it drains into. Read upstream from the outlet, a
//! unit without tributaries has order one; any other unit has the highest order
//! among the units that drain into it, raised by one where two or more of them
//! share that order.
use std::collections::HashMap;
use std::collections::HashSet;
use vstd::arithmetic::power2::lemma2_to64;
use vstd::arithmetic::power2::lemma_pow2_unfold;
use vstd::arithmetic::power2::pow2;
use vstd::prelude::*;

use crate::fabric::UnitId;
use crate::geometry::lemma_filter_empty;
use crate::geometry::lemma_filter_push;

verus! {

broadcast use vstd::std_specs::hash::group_hash_axioms;

/// One upstream unit and the unit it drains into, if that is inside the basin.
#[derive(Clone, Copy, Debug, PartialEq, Eq)]
pub struct UnitLink {
    pub id: UnitId,
    pub downstream_id: Option<UnitId>,
}

pub open spec fn drains_into(link: UnitLink, down: i64) -> bool {
    link.downstream_id matches Some(d) && d@ == down
}

/// The units that drain into `down`, in the order of the records.
pub open spec fn tributaries(links: Seq<UnitLink>, down: i64) -> Seq<i64>
    decreases links.len(),
{
    if links.len() == 0 {
        Seq::empty()
    } else {
        let before = tributaries(links.drop_last(), down);
        if drains_into(links.last(), down) {
            before.push(links.last().id@)
        } else {
            before
        }
    }
}

/// The unit at which the basin ends: the last one recorded without a downstream
/// unit, or `terminal` if every record names one.
pub open spec fn outlet_of(terminal: i64, links: Seq<UnitLink>) -> i64
    decreases links.len(),
{
    if links.len() == 0 {
        terminal
    } else if links.last().downstream_id is None {
        links.last().id@
    } else {
        outlet_of(terminal, links.drop_last())
    }
}

/// `unit` lies `steps` links upstream of `outlet`.
pub open spec fn lies_upstream(
    links: Seq<UnitLink>,
    outlet: i64,
    unit: i64,
    steps: nat,
) -> bool
    decreases steps,
{
    if steps == 0 {
        unit == outlet
    } else {
        exists|down: i64|
            lies_upstream(links, outlet, down, (steps - 1) as nat) && #[trigger] tributaries(
                links,
                down,
            ).contains(unit)
    }
}

/// `unit` is `outlet` or lies upstream of it.
pub open spec fn is_upstream(links: Seq<UnitLink>, outlet: i64, unit: i64) -> bool {
    exists|steps: nat| lies_upstream(links, outlet, unit, steps)
}

/// The highest order among `units`; zero where there are none.
pub open spec fn highest(units: Seq<i64>, orders: Map<i64, u32>) -> int
    decreases units.len(),
{
    if units.len() == 0 {
        0
    } else {
        let before = highest(units.drop_last(), orders);
        if orders[units.last()] > before {
            orders[units.last()] as int
        } else {
            before
        }
    }
}

/// How many of `units` have the order `order`.
pub open spec fn sharing(units: Seq<i64>, orders: Map<i64, u32>, order: int) -> nat
    decreases units.len(),
{
    if units.len() == 0 {
        0
    } else {
        let before = sharing(units.drop_last(), orders, order);
        if orders[units.last()] == order {
            before + 1
        } else {
            before
        }
    }
}

/// The order of a unit into which `units` drain.
pub open spec fn joined_order(units: Seq<i64>, orders: Map<i64, u32>) -> int {
    let top = highest(units, orders);
    if units.len() == 0 {
        1
    } else if sharing(units, orders, top) > 1 {
        top + 1
    } else {
        top
    }
}

/// `orders` gives exactly the units upstream of `outlet` an order, and each the
/// order that follows from its tributaries.
pub open spec fn is_ordering(links: Seq<UnitLink>, outlet: i64, orders: Map<i64, u32>) -> bool {
    &&& forall|unit: i64| #[trigger]
        orders.contains_key(unit) <==> is_upstream(links, outlet, unit)
    &&& forall|unit: i64| #[trigger]
        orders.contains_key(unit) ==> orders[unit] == joined_order(
            tributaries(links, unit),
            orders,
        )
}

/// `heights` grows along every link upstream of `outlet`: no unit there drains,
/// directly or not, into itself.
pub open spec fn measures(links: Seq<UnitLink>, outlet: i64, heights: Map<i64, nat>) -> bool {
    &&& heights.contains_key(outlet)
    &&& forall|down: i64, unit: i64|
        heights.contains_key(down) && #[trigger] tributaries(links, down).contains(unit)
            ==> heights.contains_key(unit) && heights[unit] < heights[down]
}

/// No cycle lies upstream of `outlet`, and no chain of links there is so long
/// that an order could leave the range of `u32`.
pub open spec fn is_acyclic(links: Seq<UnitLink>, outlet: i64) -> bool {
    exists|heights: Map<i64, nat>| #[trigger]
        measures(links, outlet, heights) && heights[outlet] < u32::MAX
}

proof fn lemma_tributaries_len(links: Seq<UnitLink>, down: i64)
    ensures
        tributaries(links, down).len() <= links.len(),
    decreases links.len(),
{
    if links.len() > 0 {
        lemma_tributaries_len(links.drop_last(), down);
    }
}

/// A unit cannot have an order above the highest.
proof fn lemma_sharing_above(units: Seq<i64>, orders: Map<i64, u32>, order: int)
    requires
        order > highest(units, orders),
    ensures
        sharing(units, orders, order) == 0,
    decreases units.len(),
{
    if units.len() > 0 {
        lemma_sharing_above(units.drop_last(), orders, order);
    }
}

/// The joined order looks at nothing but the orders of the units that join.
proof fn lemma_joined_congruent(units: Seq<i64>, a: Map<i64, u32>, b: Map<i64, u32>)
    requires
        forall|u: i64| #[trigger] units.contains(u) ==> a[u] == b[u],
    ensures
        highest(units, a) == highest(units, b),
        forall|o: int| #[trigger] sharing(units, a, o) == sharing(units, b, o),
        joined_order(units, a) == joined_order(units, b),
    decreases units.len(),
{
    if units.len() > 0 {
        let rest = units.drop_last();
        assert forall|u: i64| #[trigger] rest.contains(u) implies a[u] == b[u] by {
            let i = choose|i: int| 0 <= i < rest.len() && rest[i] == u;
            assert(units[i] == u);
            assert(units.contains(u));
        }
        lemma_joined_congruent(rest, a, b);
        assert(units.contains(units.last()));
        assert forall|o: int| #[trigger] sharing(units, a, o) == sharing(units, b, o) by {
            assert(sharing(rest, a, o) == sharing(rest, b, o));
        }
    }
}

/// Bounds on the highest order, and a unit that has it.
proof fn lemma_highest(units: Seq<i64>, orders: Map<i64, u32>)
    ensures
        0 <= highest(units, orders) <= u32::MAX,
        forall|i: int| 0 <= i < units.len() ==> orders[#[trigger] units[i]] <= highest(
            units,
            orders,
        ),
        units.len() > 0 ==> exists|i: int|
            0 <= i < units.len() && orders[#[trigger] units[i]] == highest(units, orders),
    decreases units.len(),
{
    if units.len() > 0 {
        let rest = units.drop_last();
        lemma_highest(rest, orders);
        assert forall|i: int| 0 <= i < units.len() implies orders[#[trigger] units[i]] <= highest(
            units,
            orders,
        ) by {
            if i < rest.len() {
                assert(rest[i] == units[i]);
            }
        }
        if orders[units.last()] as int == highest(units, orders) {
            assert(orders[units[units.len() - 1]] == highest(units, orders));
        } else {
            let i = choose|i: int|
                0 <= i < rest.len() && orders[#[trigger] rest[i]] == highest(rest, orders);
            assert(orders[units[i]] == highest(units, orders));
        }
    }
}

/// An upper bound on the steps of the walk that a unit of height `height` costs
/// where at most `width` units drain into any one.
spec fn walk_cost(width: nat, height: nat) -> nat
    decreases height,
{
    if height == 0 {
        2
    } else {
        2 + width * walk_cost(width, (height - 1) as nat)
    }
}

proof fn lemma_walk_cost_monotone(width: nat, a: nat, b: nat)
    requires
        a <= b,
    ensures
        2 <= walk_cost(width, a) <= walk_cost(width, b),
    decreases b,
{
    assert(width * walk_cost(width, (b - 1) as nat) >= 0) by (nonlinear_arith);
    if a == 0 {
        if b > 0 {
            assert(0 <= width * walk_cost(width, (b - 1) as nat)) by (nonlinear_arith);
        }
    } else {
        lemma_walk_cost_monotone(width, (a - 1) as nat, (b - 1) as nat);
        let x = walk_cost(width, (a - 1) as nat);
        let y = walk_cost(width, (b - 1) as nat);
        assert(0 <= width * x <= width * y) by (nonlinear_arith)
            requires
                x <= y,
        ;
    }
}

/// The cost of what is left on the walk's stack.
spec fn stack_cost(stack: Seq<(i64, bool)>, heights: Map<i64, nat>, width: nat) -> nat
    decreases stack.len(),
{
    if stack.len() == 0 {
        0
    } else {
        let top = stack.last();
        stack_cost(stack.drop_last(), heights, width) + if top.1 {
            1
        } else {
            walk_cost(width, heights[top.0])
        }
    }
}

proof fn lemma_stack_cost_push(
    stack: Seq<(i64, bool)>,
    entry: (i64, bool),
    heights: Map<i64, nat>,
    width: nat,
)
    ensures
        stack_cost(stack.push(entry), heights, width) == stack_cost(stack, heights, width)
            + if entry.1 {
            1
        } else {
            walk_cost(width, heights[entry.0])
        },
{
    assert(stack.push(entry).drop_last() =~= stack);
}

/// The orders found so far: each follows from orders that were found before it.
spec fn settled(links: Seq<UnitLink>, orders: Map<i64, u32>) -> bool {
    forall|unit: i64| #[trigger]
        orders.contains_key(unit) ==> orders[unit] == joined_order(
            tributaries(links, unit),
            orders,
        ) && forall|kid: i64| #[trigger]
            tributaries(links, unit).contains(kid) ==> orders.contains_key(kid)
}

/// Each unit that waits for its tributaries has them settled, or above it on the stack.
spec fn awaited(
    links: Seq<UnitLink>,
    orders: Map<i64, u32>,
    stack: Seq<(i64, bool)>,
) -> bool {
    forall|p: int, kid: i64|
        0 <= p < stack.len() && (#[trigger] stack[p]).1 && #[trigger] tributaries(
            links,
            stack[p].0,
        ).contains(kid) ==> orders.contains_key(kid) || exists|q: int|
            p < q < stack.len() && (#[trigger] stack[q]).0 == kid
}

/// Everything the walk has met lies upstream of the outlet and is no higher.
spec fn met(links: Seq<UnitLink>, outlet: i64, heights: Map<i64, nat>, unit: i64) -> bool {
    &&& is_upstream(links, outlet, unit)
    &&& heights.contains_key(unit)
    &&& heights[unit] <= heights[outlet]
}

proof fn lemma_met_tributary(
    links: Seq<UnitLink>,
    outlet: i64,
    heights: Map<i64, nat>,
    unit: i64,
    kid: i64,
)
    requires
        measures(links, outlet, heights),
        met(links, outlet, heights, unit),
        tributaries(links, unit).contains(kid),
    ensures
        met(links, outlet, heights, kid),
        heights[kid] < heights[unit],
{
    let steps = choose|steps: nat| lies_upstream(links, outlet, unit, steps);
    assert(lies_upstream(links, outlet, kid, steps + 1));
}

/// Settling one more unit keeps what is settled.
proof fn lemma_settle(links: Seq<UnitLink>, orders: Map<i64, u32>, unit: i64, order: u32)
    requires
        settled(links, orders),
        order == joined_order(tributaries(links, unit), orders),
        forall|kid: i64| #[trigger]
            tributaries(links, unit).contains(kid) ==> orders.contains_key(kid),
    ensures
        settled(links, orders.insert(unit, order)),
{
    let after = orders.insert(unit, order);
    if orders.contains_key(unit) {
        assert(after =~= orders);
    } else {
        assert forall|u: i64| #[trigger] after.contains_key(u) implies after[u] == joined_order(
            tributaries(links, u),
            after,
        ) && forall|kid: i64| #[trigger]
            tributaries(links, u).contains(kid) ==> after.contains_key(kid) by {
            let kids = tributaries(links, u);
            if u != unit {
                assert(orders.contains_key(u));
            }
            assert forall|k: i64| #[trigger] kids.contains(k) implies orders[k] == after[k] by {
                assert(orders.contains_key(k));
            }
            lemma_joined_congruent(kids, orders, after);
        }
    }
}

/// What is settled and holds the outlet holds everything upstream of it.
proof fn lemma_settled_is_whole(
    links: Seq<UnitLink>,
    orders: Map<i64, u32>,
    outlet: i64,
    unit: i64,
    steps: nat,
)
    requires
        settled(links, orders),
        orders.contains_key(outlet),
        lies_upstream(links, outlet, unit, steps),
    ensures
        orders.contains_key(unit),
    decreases steps,
{
    if steps > 0 {
        let down = choose|down: i64|
            lies_upstream(links, outlet, down, (steps - 1) as nat) && #[trigger] tributaries(
                links,
                down,
            ).contains(unit);
        lemma_settled_is_whole(links, orders, outlet, down, (steps - 1) as nat);
    }
}

/// The Strahler orders of a basin.
pub struct StrahlerOrders {
    units: Vec<i64>,
    orders: HashMap<i64, u32>,
}

impl View for StrahlerOrders {
    type V = Map<i64, u32>;

    closed spec fn view(&self) -> Map<i64, u32> {
        self.orders@
    }
}

impl StrahlerOrders {
    /// The units are listed once each, and every order is positive.
    #[verifier::type_invariant]
    spec fn listed_once(self) -> bool {
        &&& self.units@.no_duplicates()
        &&& forall|u: i64| #[trigger] self.units@.contains(u) <==> self.orders@.contains_key(u)
        &&& forall|u: i64| #[trigger] self.orders@.contains_key(u) ==> self.orders@[u] > 0
    }
}

/// The records grouped by the unit they drain into.
fn group_by_downstream(links: &Vec<UnitLink>) -> (r: HashMap<i64, Vec<i64>>)
    ensures
        forall|down: i64| #[trigger]
            r@.contains_key(down) ==> r@[down]@ == tributaries(links@, down),
        forall|down: i64|
            !(#[trigger] r@.contains_key(down)) ==> tributaries(links@, down).len() == 0,
{
    let mut groups: HashMap<i64, Vec<i64>> = HashMap::new();
    for i in 0..links.len()
        invariant
            forall|down: i64| #[trigger]
                groups@.contains_key(down) ==> groups@[down]@ == tributaries(
                    links@.take(i as int),
                    down,
                ),
            forall|down: i64|
                !(#[trigger] groups@.contains_key(down)) ==> tributaries(
                    links@.take(i as int),
                    down,
                ).len() == 0,
    {
        let ghost before = groups@;
        let ghost seen = links@.take(i as int);
        assert(links@.take(i + 1).drop_last() =~= seen);
        assert(links@.take(i + 1).last() == links@[i as int]);
        if let Some(down) = links[i].downstream_id {
            let key = down.get();
            let mut group = match groups.remove(&key) {
                Some(group) => group,
                None => Vec::new(),
            };
            assert(group@ =~= tributaries(seen, key));
            group.push(links[i].id.get());
            groups.insert(key, group);
        }
    }
    assert(links@.take(links@.len() as int) =~= links@);
    groups
}

/// The unit at which the basin ends.
fn find_outlet(terminal: UnitId, links: &Vec<UnitLink>) -> (r: i64)
    ensures
        r == outlet_of(terminal@, links@),
{
    let mut outlet = terminal.get();
    for i in 0..links.len()
        invariant
            outlet == outlet_of(terminal@, links@.take(i as int)),
    {
        assert(links@.take(i + 1).drop_last() =~= links@.take(i as int));
        if links[i].downstream_id.is_none() {
            outlet = links[i].id.get();
        }
    }
    assert(links@.take(links@.len() as int) =~= links@);
    outlet
}

/// The order that follows from the orders of `units`.
fn join_orders(units: &Vec<i64>, orders: &HashMap<i64, u32>) -> (r: u32)
    requires
        forall|i: int| 0 <= i < units@.len() ==> orders@.contains_key(#[trigger] units@[i]),
        joined_order(units@, orders@) <= u32::MAX,
    ensures
        r == joined_order(units@, orders@),
{
    if units.len() == 0 {
        return 1;
    }
    let mut top: u32 = 0;
    let mut count: usize = 0;
    for i in 0..units.len()
        invariant
            forall|i: int| 0 <= i < units@.len() ==> orders@.contains_key(#[trigger] units@[i]),
            top == highest(units@.take(i as int), orders@),
            count == sharing(units@.take(i as int), orders@, top as int),
            count <= i,
    {
        assert(units@.take(i + 1).drop_last() =~= units@.take(i as int));
        assert(units@.take(i + 1).last() == units@[i as int]);
        let order = match orders.get(&units[i]) {
            Some(order) => *order,
            None => 1,
        };
        if order > top {
            proof {
                lemma_sharing_above(units@.take(i as int), orders@, order as int);
            }
            top = order;
            count = 1;
        } else if order == top {
            count = count + 1;
        }
    }
    assert(units@.take(units@.len() as int) =~= units@);
    if count > 1 {
        top + 1
    } else {
        top
    }
}

/// Strahler order per unit, found by walking upstream from the outlet.
///
/// Each unit is met twice: once to put its tributaries on the stack above it,
/// and again, when they are settled, to join their orders.
pub fn strahler_orders(terminal: UnitId, links: &Vec<UnitLink>) -> (r: StrahlerOrders)
    requires
        is_acyclic(links@, outlet_of(terminal@, links@)),
    ensures
        is_ordering(links@, outlet_of(terminal@, links@), r@),
{
    let groups = group_by_downstream(links);
    let outlet = find_outlet(terminal, links);
    let none: Vec<i64> = Vec::new();
    let ghost heights = choose|heights: Map<i64, nat>| #[trigger]
        measures(links@, outlet, heights) && heights[outlet] < u32::MAX;
    let ghost width = links@.len();

    let mut units: Vec<i64> = Vec::new();
    let mut orders: HashMap<i64, u32> = HashMap::new();
    let mut stack: Vec<(i64, bool)> = Vec::new();
    stack.push((outlet, false));
    assert(lies_upstream(links@, outlet, outlet, 0));

    while stack.len() > 0
        invariant
            measures(links@, outlet, heights),
            heights[outlet] < u32::MAX,
            width == links@.len(),
            none@.len() == 0,
            forall|down: i64| #[trigger]
                groups@.contains_key(down) ==> groups@[down]@ == tributaries(links@, down),
            forall|down: i64|
                !(#[trigger] groups@.contains_key(down)) ==> tributaries(links@, down).len() == 0,
            stack@.len() > 0 ==> stack@[0].0 == outlet,
            stack@.len() == 0 ==> orders@.contains_key(outlet),
            forall|p: int|
                0 <= p < stack@.len() ==> met(links@, outlet, heights, (#[trigger] stack@[p]).0),
            forall|u: i64| #[trigger]
                orders@.contains_key(u) ==> met(links@, outlet, heights, u) && 1 <= orders@[u]
                    <= heights[u] + 1,
            settled(links@, orders@),
            awaited(links@, orders@, stack@),
            units@.no_duplicates(),
            forall|u: i64| #[trigger] units@.contains(u) <==> orders@.contains_key(u),
        decreases stack_cost(stack@, heights, width),
    {
        let ghost whole = stack@;
        let (id, expanded) = stack.pop().unwrap();
        let ghost rest = stack@;
        let ghost n = rest.len() as int;
        assert(whole =~= rest.push((id, expanded)));
        assert(whole[n] == (id, expanded));
        proof {
            lemma_stack_cost_push(rest, (id, expanded), heights, width);
        }
        let kids: &Vec<i64> = match groups.get(&id) {
            Some(group) => group,
            None => &none,
        };
        assert(kids@ =~= tributaries(links@, id));
        assert forall|i: int| 0 <= i < kids@.len() implies met(
            links@,
            outlet,
            heights,
            #[trigger] kids@[i],
        ) && heights[kids@[i]] < heights[id] by {
            assert(tributaries(links@, id).contains(kids@[i]));
            lemma_met_tributary(links@, outlet, heights, id, kids@[i]);
        }
        if !expanded {
            stack.push((id, true));
            proof {
                lemma_stack_cost_push(rest, (id, true), heights, width);
                lemma_walk_cost_monotone(width, heights[id], heights[id]);
                lemma_tributaries_len(links@, id);
            }
            let ghost kid_cost = if heights[id] == 0 {
                0nat
            } else {
                walk_cost(width, (heights[id] - 1) as nat)
            };
            for j in 0..kids.len()
                invariant
                    kids@ == tributaries(links@, id),
                    n == rest.len(),
                    stack@.len() == n + 1 + j,
                    forall|p: int| 0 <= p < n ==> stack@[p] == #[trigger] rest[p],
                    stack@[n] == (id, true),
                    forall|p: int|
                        n < p < stack@.len() ==> (#[trigger] stack@[p]) == (kids@[p - n - 1], false),
                    forall|i: int|
                        0 <= i < kids@.len() ==> heights[#[trigger] kids@[i]] < heights[id],
                    heights[id] > 0 ==> kid_cost == walk_cost(width, (heights[id] - 1) as nat),
                    stack_cost(stack@, heights, width) <= stack_cost(rest, heights, width) + 1 + j
                        * kid_cost,
            {
                let ghost before = stack@;
                stack.push((kids[j], false));
                proof {
                    lemma_stack_cost_push(before, (kids@[j as int], false), heights, width);
                    lemma_walk_cost_monotone(
                        width,
                        heights[kids@[j as int]],
                        (heights[id] - 1) as nat,
                    );
                    assert((j + 1) * kid_cost == j * kid_cost + kid_cost) by (nonlinear_arith);
                }
            }
            proof {
                assert(kids@.len() * kid_cost <= width * kid_cost) by (nonlinear_arith)
                    requires
                        kids@.len() <= width,
                ;
                if heights[id] == 0 {
                    assert(kids@.len() * kid_cost == 0) by (nonlinear_arith)
                        requires
                            kid_cost == 0,
                    ;
                }
                assert(stack_cost(stack@, heights, width) < stack_cost(whole, heights, width));
                assert(awaited(links@, orders@, stack@)) by {
                    assert forall|p: int, kid: i64|
                        0 <= p < stack@.len() && (#[trigger] stack@[p]).1 && #[trigger] tributaries(
                            links@,
                            stack@[p].0,
                        ).contains(kid) implies orders@.contains_key(kid) || exists|q: int|
                        p < q < stack@.len() && (#[trigger] stack@[q]).0 == kid by {
                        if p < n {
                            assert(stack@[p] == rest[p] && rest[p] == whole[p]);
                            if !orders@.contains_key(kid) {
                                let q = choose|q: int|
                                    p < q < whole.len() && (#[trigger] whole[q]).0 == kid;
                                if q < n {
                                    assert(stack@[q] == rest[q]);
                                } else {
                                    assert(stack@[n].0 == kid);
                                }
                            }
                        } else if p == n {
                            let i = choose|i: int| 0 <= i < kids@.len() && kids@[i] == kid;
                            assert(stack@[n + 1 + i].0 == kid);
                        }
                    }
                }
                assert forall|p: int| 0 <= p < stack@.len() implies met(
                    links@,
                    outlet,
                    heights,
                    (#[trigger] stack@[p]).0,
                ) by {
                    if p < n {
                        assert(stack@[p] == rest[p] && rest[p] == whole[p]);
                    }
                }
                assert(stack@[0].0 == outlet) by {
                    if n > 0 {
                        assert(stack@[0] == rest[0]);
                    }
                }
            }
        } else {
            assert forall|kid: i64| #[trigger]
                tributaries(links@, id).contains(kid) implies orders@.contains_key(kid) by {
                assert(tributaries(links@, whole[n].0).contains(kid));
            }
            proof {
                assert forall|i: int| 0 <= i < kids@.len() implies orders@.contains_key(
                    #[trigger] kids@[i],
                ) by {
                    assert(tributaries(links@, id).contains(kids@[i]));
                }
                lemma_highest(kids@, orders@);
                if kids@.len() > 0 {
                    let i = choose|i: int|
                        0 <= i < kids@.len() && orders@[#[trigger] kids@[i]] == highest(
                            kids@,
                            orders@,
                        );
                    assert(heights[kids@[i]] < heights[id]);
                    assert(orders@.contains_key(kids@[i]));
                }
                assert(1 <= joined_order(kids@, orders@) <= heights[id] + 1);
            }
            let order = join_orders(kids, &orders);
            proof {
                lemma_settle(links@, orders@, id, order);
            }
            let ghost listed = units@;
            if !orders.contains_key(&id) {
                units.push(id);
            }
            let ghost before = orders@;
            orders.insert(id, order);
            proof {
                assert forall|u: i64| #[trigger]
                    units@.contains(u) <==> orders@.contains_key(u) by {
                    if before.contains_key(id) {
                        assert(units@ == listed);
                        assert(listed.contains(u) <==> before.contains_key(u));
                    } else {
                        if listed.contains(u) {
                            let i = choose|i: int| 0 <= i < listed.len() && listed[i] == u;
                            assert(units@[i] == u);
                        }
                        assert(units@[listed.len() as int] == id);
                        if units@.contains(u) && u != id {
                            let i = choose|i: int| 0 <= i < units@.len() && units@[i] == u;
                            assert(listed[i] == u);
                        }
                        assert(listed.contains(u) <==> before.contains_key(u));
                    }
                }
                assert(units@.no_duplicates()) by {
                    if !before.contains_key(id) {
                        assert(!listed.contains(id));
                    }
                }
                assert(awaited(links@, orders@, stack@)) by {
                    assert forall|p: int, kid: i64|
                        0 <= p < stack@.len() && (#[trigger] stack@[p]).1 && #[trigger] tributaries(
                            links@,
                            stack@[p].0,
                        ).contains(kid) implies orders@.contains_key(kid) || exists|q: int|
                        p < q < stack@.len() && (#[trigger] stack@[q]).0 == kid by {
                        assert(whole[p] == stack@[p]);
                        if !orders@.contains_key(kid) {
                            let q = choose|q: int|
                                p < q < whole.len() && (#[trigger] whole[q]).0 == kid;
                            assert(stack@[q] == whole[q]);
                        }
                    }
                }
                assert forall|p: int| 0 <= p < stack@.len() implies met(
                    links@,
                    outlet,
                    heights,
                    (#[trigger] stack@[p]).0,
                ) by {
                    assert(whole[p] == stack@[p]);
                }
                if n == 0 {
                    assert(whole[0].0 == outlet);
                } else {
                    assert(stack@[0] == whole[0]);
                }
            }
        }
    }
    proof {
        assert forall|unit: i64| #[trigger] orders@.contains_key(unit) <==> is_upstream(
            links@,
            outlet,
            unit,
        ) by {
            if is_upstream(links@, outlet, unit) {
                let steps = choose|steps: nat| lies_upstream(links@, outlet, unit, steps);
                lemma_settled_is_whole(links@, orders@, outlet, unit, steps);
            }
        }
    }
    StrahlerOrders { units, orders }
}

/// A tributary is one of the records.
proof fn lemma_tributary_is_recorded(links: Seq<UnitLink>, down: i64, unit: i64) -> (i: int)
    requires
        tributaries(links, down).contains(unit),
    ensures
        0 <= i < links.len(),
        links[i].id@ == unit,
        drains_into(links[i], down),
    decreases links.len(),
{
    let rest = links.drop_last();
    let units = tributaries(links, down);
    let p = choose|p: int| 0 <= p < units.len() && units[p] == unit;
    if drains_into(links.last(), down) && p == units.len() - 1 {
        links.len() - 1
    } else {
        assert(tributaries(rest, down)[p] == unit);
        lemma_tributary_is_recorded(rest, down, unit)
    }
}

/// A unit `steps` links upstream lies at least that much lower than the outlet,
/// and the units on the way are `steps` different records.
proof fn lemma_chain(
    links: Seq<UnitLink>,
    outlet: i64,
    heights: Map<i64, nat>,
    unit: i64,
    steps: nat,
) -> (chain: Seq<i64>)
    requires
        measures(links, outlet, heights),
        lies_upstream(links, outlet, unit, steps),
    ensures
        heights.contains_key(unit),
        heights[unit] + steps <= heights[outlet],
        chain.len() == steps,
        chain.no_duplicates(),
        forall|i: int|
            0 <= i < chain.len() ==> heights[#[trigger] chain[i]] >= heights[unit]
                && links.map_values(|l: UnitLink| l.id@).contains(chain[i]),
    decreases steps,
{
    if steps == 0 {
        Seq::empty()
    } else {
        let down = choose|down: i64|
            lies_upstream(links, outlet, down, (steps - 1) as nat) && #[trigger] tributaries(
                links,
                down,
            ).contains(unit);
        let before = lemma_chain(links, outlet, heights, down, (steps - 1) as nat);
        let i = lemma_tributary_is_recorded(links, down, unit);
        assert(links.map_values(|l: UnitLink| l.id@)[i] == unit);
        before.push(unit)
    }
}

/// Without a cycle no unit lies more links upstream than there are records.
proof fn lemma_chain_is_short(
    links: Seq<UnitLink>,
    outlet: i64,
    heights: Map<i64, nat>,
    unit: i64,
    steps: nat,
)
    requires
        measures(links, outlet, heights),
        lies_upstream(links, outlet, unit, steps),
    ensures
        steps <= links.len(),
        steps <= heights[outlet],
{
    broadcast use vstd::seq_lib::seq_to_set_is_finite;

    let chain = lemma_chain(links, outlet, heights, unit, steps);
    let ids = links.map_values(|l: UnitLink| l.id@);
    chain.unique_seq_to_set();
    ids.lemma_cardinality_of_set();
    assert(chain.to_set().subset_of(ids.to_set())) by {
        assert forall|u: i64| chain.to_set().contains(u) implies ids.to_set().contains(u) by {
            let i = choose|i: int| 0 <= i < chain.len() && chain[i] == u;
            assert(ids.contains(chain[i]));
        }
    }
    vstd::set_lib::lemma_len_subset(chain.to_set(), ids.to_set());
}

/// The largest number of links, below `limit`, by which `unit` lies upstream.
spec fn farthest(links: Seq<UnitLink>, outlet: i64, unit: i64, limit: nat) -> nat
    decreases limit,
{
    if limit == 0 {
        0
    } else if lies_upstream(links, outlet, unit, (limit - 1) as nat) {
        (limit - 1) as nat
    } else {
        farthest(links, outlet, unit, (limit - 1) as nat)
    }
}

proof fn lemma_farthest(links: Seq<UnitLink>, outlet: i64, unit: i64, limit: nat, steps: nat)
    requires
        steps < limit,
        lies_upstream(links, outlet, unit, steps),
    ensures
        steps <= farthest(links, outlet, unit, limit) < limit,
        lies_upstream(links, outlet, unit, farthest(links, outlet, unit, limit)),
    decreases limit,
{
    if !lies_upstream(links, outlet, unit, (limit - 1) as nat) {
        lemma_farthest(links, outlet, unit, (limit - 1) as nat, steps);
    }
}

/// If no unit lies `limit` links upstream, there is no cycle.
proof fn lemma_bounded_is_acyclic(links: Seq<UnitLink>, outlet: i64, limit: nat)
    requires
        forall|unit: i64| !(#[trigger] lies_upstream(links, outlet, unit, limit)),
        limit <= u32::MAX,
    ensures
        is_acyclic(links, outlet),
{
    assert(lies_upstream(links, outlet, outlet, 0));
    let reached = |unit: i64|
        exists|steps: nat| steps < limit && lies_upstream(links, outlet, unit, steps);
    let heights = Map::new(
        reached,
        |unit: i64| (limit - 1 - farthest(links, outlet, unit, limit)) as nat,
    );
    lemma_farthest(links, outlet, outlet, limit, 0);
    assert(heights.contains_key(outlet));
    assert forall|down: i64, unit: i64|
        heights.contains_key(down) && #[trigger] tributaries(links, down).contains(
            unit,
        ) implies heights.contains_key(unit) && heights[unit] < heights[down] by {
        let steps = choose|steps: nat| steps < limit && lies_upstream(links, outlet, down, steps);
        lemma_farthest(links, outlet, down, limit, steps);
        let far = farthest(links, outlet, down, limit);
        assert(lies_upstream(links, outlet, unit, far + 1));
        assert(far + 1 < limit);
        lemma_farthest(links, outlet, unit, limit, far + 1);
    }
    assert(measures(links, outlet, heights));
}

/// Whether the units upstream of `outlet` are free of cycles, found by listing
/// them layer by layer.
fn check_acyclic(
    outlet: i64,
    links: &Vec<UnitLink>,
    groups: &HashMap<i64, Vec<i64>>,
) -> (r: bool)
    requires
        forall|down: i64| #[trigger]
            groups@.contains_key(down) ==> groups@[down]@ == tributaries(links@, down),
        forall|down: i64|
            !(#[trigger] groups@.contains_key(down)) ==> tributaries(links@, down).len() == 0,
    ensures
        r == is_acyclic(links@, outlet),
{
    let limit: u32 = if links.len() < u32::MAX as usize {
        links.len() as u32 + 1
    } else {
        u32::MAX
    };
    let none: Vec<i64> = Vec::new();
    let mut layer: Vec<i64> = Vec::new();
    layer.push(outlet);
    let mut steps: u32 = 0;
    assert(layer@[0] == outlet);
    while layer.len() > 0 && steps < limit
        invariant
            none@.len() == 0,
            steps <= limit,
            forall|down: i64| #[trigger]
                groups@.contains_key(down) ==> groups@[down]@ == tributaries(links@, down),
            forall|down: i64|
                !(#[trigger] groups@.contains_key(down)) ==> tributaries(links@, down).len() == 0,
            forall|u: i64| #[trigger]
                layer@.contains(u) <==> lies_upstream(links@, outlet, u, steps as nat),
        decreases limit - steps,
    {
        let mut next: Vec<i64> = Vec::new();
        let mut listed: HashSet<i64> = HashSet::new();
        for i in 0..layer.len()
            invariant
                none@.len() == 0,
                forall|down: i64| #[trigger]
                    groups@.contains_key(down) ==> groups@[down]@ == tributaries(links@, down),
                forall|down: i64|
                    !(#[trigger] groups@.contains_key(down)) ==> tributaries(
                        links@,
                        down,
                    ).len() == 0,
                forall|u: i64| #[trigger] next@.contains(u) <==> listed@.contains(u),
                forall|u: i64| #[trigger]
                    listed@.contains(u) <==> exists|k: int|
                        0 <= k < i && tributaries(links@, #[trigger] layer@[k]).contains(u),
        {
            let kids: &Vec<i64> = match groups.get(&layer[i]) {
                Some(group) => group,
                None => &none,
            };
            assert(kids@ =~= tributaries(links@, layer@[i as int]));
            let ghost before = listed@;
            for j in 0..kids.len()
                invariant
                    forall|u: i64| #[trigger] next@.contains(u) <==> listed@.contains(u),
                    forall|u: i64| #[trigger]
                        listed@.contains(u) <==> before.contains(u) || kids@.take(
                            j as int,
                        ).contains(u),
            {
                let kid = kids[j];
                let ghost gathered = next@;
                let ghost marked = listed@;
                if !listed.contains(&kid) {
                    next.push(kid);
                    listed.insert(kid);
                }
                proof {
                    assert(kids@.take(j + 1) =~= kids@.take(j as int).push(kid));
                    assert forall|u: i64| #[trigger] next@.contains(u) <==> listed@.contains(
                        u,
                    ) by {
                        assert(gathered.contains(u) <==> marked.contains(u));
                        if gathered.contains(u) {
                            let k = choose|k: int| 0 <= k < gathered.len() && gathered[k] == u;
                            assert(next@[k] == u);
                        }
                        if !marked.contains(kid) {
                            assert(next@[gathered.len() as int] == kid);
                        }
                        if next@.contains(u) && u != kid {
                            let k = choose|k: int| 0 <= k < next@.len() && next@[k] == u;
                            assert(gathered[k] == u);
                        }
                    }
                    assert forall|u: i64| #[trigger]
                        listed@.contains(u) <==> before.contains(u) || kids@.take(j + 1).contains(
                            u,
                        ) by {
                        let a = kids@.take(j as int);
                        assert(a.push(kid)[j as int] == kid);
                        assert(marked.contains(u) <==> before.contains(u) || a.contains(u));
                        if a.contains(u) {
                            let k = choose|k: int| 0 <= k < a.len() && a[k] == u;
                            assert(a.push(kid)[k] == u);
                        }
                        if a.push(kid).contains(u) && u != kid {
                            let k = choose|k: int|
                                0 <= k < a.push(kid).len() && a.push(kid)[k] == u;
                            assert(a[k] == u);
                        }
                    }
                }
            }
            assert(kids@.take(kids@.len() as int) =~= kids@);
            assert forall|u: i64| #[trigger] listed@.contains(u) <==> exists|k: int|
                0 <= k < i + 1 && tributaries(links@, #[trigger] layer@[k]).contains(u) by {
                assert(before.contains(u) <==> exists|k: int|
                    0 <= k < i && tributaries(links@, #[trigger] layer@[k]).contains(u));
                if listed@.contains(u) && !before.contains(u) {
                    assert(tributaries(links@, layer@[i as int]).contains(u));
                }
            }
        }
        proof {
            assert forall|u: i64| #[trigger] next@.contains(u) <==> lies_upstream(
                links@,
                outlet,
                u,
                (steps + 1) as nat,
            ) by {
                assert(next@.contains(u) <==> listed@.contains(u));
                if listed@.contains(u) {
                    let k = choose|k: int|
                        0 <= k < layer@.len() && tributaries(links@, #[trigger] layer@[k]).contains(
                            u,
                        );
                    assert(layer@.contains(layer@[k]));
                    assert(lies_upstream(links@, outlet, layer@[k], steps as nat));
                }
                if lies_upstream(links@, outlet, u, (steps + 1) as nat) {
                    let down = choose|down: i64|
                        lies_upstream(links@, outlet, down, steps as nat)
                            && #[trigger] tributaries(links@, down).contains(u);
                    assert(layer@.contains(down));
                    let k = choose|k: int| 0 <= k < layer@.len() && layer@[k] == down;
                    assert(tributaries(links@, layer@[k]).contains(u));
                }
            }
        }
        layer = next;
        steps = steps + 1;
    }
    proof {
        if layer@.len() == 0 {
            assert forall|unit: i64| !(#[trigger] lies_upstream(
                links@,
                outlet,
                unit,
                steps as nat,
            )) by {
                assert(!layer@.contains(unit));
            }
            lemma_bounded_is_acyclic(links@, outlet, steps as nat);
        } else {
            let unit = layer@[0];
            assert(layer@.contains(unit));
            assert(lies_upstream(links@, outlet, unit, limit as nat));
            if is_acyclic(links@, outlet) {
                let heights = choose|heights: Map<i64, nat>| #[trigger]
                    measures(links@, outlet, heights) && heights[outlet] < u32::MAX;
                lemma_chain_is_short(links@, outlet, heights, unit, limit as nat);
            }
        }
    }
    layer.len() == 0
}

/// Strahler order per unit, or `None` where the records hold a cycle upstream of
/// the outlet.
pub fn checked_strahler_orders(terminal: UnitId, links: &Vec<UnitLink>) -> (r: Option<
    StrahlerOrders,
>)
    ensures
        match r {
            Some(orders) => is_acyclic(links@, outlet_of(terminal@, links@)) && is_ordering(
                links@,
                outlet_of(terminal@, links@),
                orders@,
            ),
            None => !is_acyclic(links@, outlet_of(terminal@, links@)),
        },
{
    let groups = group_by_downstream(links);
    let outlet = find_outlet(terminal, links);
    if check_acyclic(outlet, links, &groups) {
        Some(strahler_orders(terminal, links))
    } else {
        None
    }
}

proof fn lemma_orders_agree(
    links: Seq<UnitLink>,
    outlet: i64,
    heights: Map<i64, nat>,
    a: Map<i64, u32>,
    b: Map<i64, u32>,
    unit: i64,
)
    requires
        measures(links, outlet, heights),
        met(links, outlet, heights, unit),
        is_ordering(links, outlet, a),
        is_ordering(links, outlet, b),
    ensures
        a[unit] == b[unit],
    decreases heights[unit],
{
    let kids = tributaries(links, unit);
    assert forall|kid: i64| #[trigger] kids.contains(kid) implies a[kid] == b[kid] by {
        lemma_met_tributary(links, outlet, heights, unit, kid);
        lemma_orders_agree(links, outlet, heights, a, b, kid);
    }
    lemma_joined_congruent(kids, a, b);
    assert(a.contains_key(unit) && b.contains_key(unit));
}

proof fn lemma_upstream_is_met(
    links: Seq<UnitLink>,
    outlet: i64,
    heights: Map<i64, nat>,
    unit: i64,
)
    requires
        measures(links, outlet, heights),
        is_upstream(links, outlet, unit),
    ensures
        met(links, outlet, heights, unit),
{
    let steps = choose|steps: nat| lies_upstream(links, outlet, unit, steps);
    let chain = lemma_chain(links, outlet, heights, unit, steps);
}

/// The rule of joining orders leaves no choice: a basin without cycles has one
/// ordering.
pub proof fn law_one_ordering(
    links: Seq<UnitLink>,
    outlet: i64,
    a: Map<i64, u32>,
    b: Map<i64, u32>,
)
    requires
        is_acyclic(links, outlet),
        is_ordering(links, outlet, a),
        is_ordering(links, outlet, b),
    ensures
        a == b,
{
    let heights = choose|heights: Map<i64, nat>| #[trigger]
        measures(links, outlet, heights) && heights[outlet] < u32::MAX;
    assert forall|unit: i64| #[trigger] a.contains_key(unit) <==> b.contains_key(unit) by {
        assert(a.contains_key(unit) <==> is_upstream(links, outlet, unit));
    }
    assert forall|unit: i64| #[trigger] a.contains_key(unit) implies a[unit] == b[unit] by {
        lemma_upstream_is_met(links, outlet, heights, unit);
        lemma_orders_agree(links, outlet, heights, a, b, unit);
    }
    assert(a =~= b);
}

/// A unit without tributaries has order one. Any other unit has at least the
/// order of each tributary, and exceeds them all, by one, exactly where at least
/// two share the highest order.
pub proof fn law_order_follows_tributaries(
    links: Seq<UnitLink>,
    outlet: i64,
    orders: Map<i64, u32>,
    unit: i64,
)
    requires
        is_ordering(links, outlet, orders),
        orders.contains_key(unit),
    ensures
        tributaries(links, unit).len() == 0 ==> orders[unit] == 1,
        forall|kid: i64| #[trigger]
            tributaries(links, unit).contains(kid) ==> orders.contains_key(kid) && orders[kid]
                <= orders[unit],
        tributaries(links, unit).len() > 0 ==> {
            let top = highest(tributaries(links, unit), orders);
            orders[unit] == if sharing(tributaries(links, unit), orders, top) >= 2 {
                top + 1
            } else {
                top
            }
        },
{
    let kids = tributaries(links, unit);
    lemma_highest(kids, orders);
    assert forall|kid: i64| #[trigger] kids.contains(kid) implies orders.contains_key(kid)
        && orders[kid] <= orders[unit] by {
        let i = choose|i: int| 0 <= i < kids.len() && kids[i] == kid;
        assert(orders[kids[i]] <= highest(kids, orders));
        let steps = choose|steps: nat| lies_upstream(links, outlet, unit, steps);
        assert(lies_upstream(links, outlet, kid, steps + 1));
        assert(is_upstream(links, outlet, kid));
    }
}

proof fn lemma_lower_order_occurs(
    links: Seq<UnitLink>,
    outlet: i64,
    heights: Map<i64, nat>,
    orders: Map<i64, u32>,
    unit: i64,
    order: int,
)
    requires
        measures(links, outlet, heights),
        met(links, outlet, heights, unit),
        is_ordering(links, outlet, orders),
        1 <= order <= orders[unit],
    ensures
        exists|u: i64| #[trigger] orders.contains_key(u) && orders[u] == order,
    decreases heights[unit],
{
    let kids = tributaries(links, unit);
    assert(orders.contains_key(unit));
    if order < orders[unit] {
        lemma_highest(kids, orders);
        let i = choose|i: int|
            0 <= i < kids.len() && orders[#[trigger] kids[i]] == highest(kids, orders);
        assert(kids.contains(kids[i]));
        lemma_met_tributary(links, outlet, heights, unit, kids[i]);
        lemma_lower_order_occurs(links, outlet, heights, orders, kids[i], order);
    }
}

/// Every order from one up to that of any unit occurs somewhere in the basin.
pub proof fn law_no_order_is_skipped(
    links: Seq<UnitLink>,
    outlet: i64,
    orders: Map<i64, u32>,
    unit: i64,
    order: int,
)
    requires
        is_acyclic(links, outlet),
        is_ordering(links, outlet, orders),
        orders.contains_key(unit),
        1 <= order <= orders[unit],
    ensures
        exists|u: i64| #[trigger] orders.contains_key(u) && orders[u] == order,
{
    let heights = choose|heights: Map<i64, nat>| #[trigger]
        measures(links, outlet, heights) && heights[outlet] < u32::MAX;
    lemma_upstream_is_met(links, outlet, heights, unit);
    lemma_lower_order_occurs(links, outlet, heights, orders, unit, order);
}

proof fn lemma_no_order_exceeds(
    links: Seq<UnitLink>,
    outlet: i64,
    orders: Map<i64, u32>,
    unit: i64,
    steps: nat,
)
    requires
        is_ordering(links, outlet, orders),
        lies_upstream(links, outlet, unit, steps),
    ensures
        orders.contains_key(unit),
        orders[unit] <= orders[outlet],
    decreases steps,
{
    assert(is_upstream(links, outlet, unit));
    assert(orders.contains_key(unit));
    if steps > 0 {
        let down = choose|down: i64|
            lies_upstream(links, outlet, down, (steps - 1) as nat) && #[trigger] tributaries(
                links,
                down,
            ).contains(unit);
        lemma_no_order_exceeds(links, outlet, orders, down, (steps - 1) as nat);
        law_order_follows_tributaries(links, outlet, orders, down);
    }
}

/// No unit has a higher order than the outlet.
pub proof fn law_outlet_has_the_highest_order(
    links: Seq<UnitLink>,
    outlet: i64,
    orders: Map<i64, u32>,
    unit: i64,
)
    requires
        is_ordering(links, outlet, orders),
        orders.contains_key(unit),
    ensures
        orders.contains_key(outlet),
        orders[unit] <= orders[outlet],
{
    assert(lies_upstream(links, outlet, outlet, 0));
    assert(is_upstream(links, outlet, outlet));
    let steps = choose|steps: nat| lies_upstream(links, outlet, unit, steps);
    lemma_no_order_exceeds(links, outlet, orders, unit, steps);
}

// ---- head units ----

/// Every unit is recorded once, so that it drains into one unit at most.
pub open spec fn recorded_once(links: Seq<UnitLink>) -> bool {
    forall|i: int, j: int|
        0 <= i < j < links.len() ==> (#[trigger] links[i]).id@ != (#[trigger] links[j]).id@
}

/// The units of the basin into which no unit drains.
pub open spec fn head_units(links: Seq<UnitLink>, orders: Map<i64, u32>) -> Set<i64> {
    orders.dom().filter(|u: i64| tributaries(links, u).len() == 0)
}

/// The head units that are `unit` or lie upstream of it.
spec fn heads_above(links: Seq<UnitLink>, orders: Map<i64, u32>, unit: i64) -> Set<i64> {
    orders.dom().filter(
        |u: i64| tributaries(links, u).len() == 0 && is_upstream(links, unit, u),
    )
}

proof fn lemma_one_downstream(links: Seq<UnitLink>, a: i64, b: i64, unit: i64)
    requires
        recorded_once(links),
        tributaries(links, a).contains(unit),
        tributaries(links, b).contains(unit),
    ensures
        a == b,
{
    let i = lemma_tributary_is_recorded(links, a, unit);
    let j = lemma_tributary_is_recorded(links, b, unit);
    if i < j {
        assert(links[i].id@ != links[j].id@);
    } else if j < i {
        assert(links[j].id@ != links[i].id@);
    }
}

proof fn lemma_tributaries_differ(links: Seq<UnitLink>, down: i64, p: int, q: int)
    requires
        recorded_once(links),
        0 <= p < q < tributaries(links, down).len(),
    ensures
        tributaries(links, down)[p] != tributaries(links, down)[q],
    decreases links.len(),
{
    let rest = links.drop_last();
    let before = tributaries(rest, down);
    assert(recorded_once(rest)) by {
        assert forall|i: int, j: int| 0 <= i < j < rest.len() implies (#[trigger] rest[i]).id@ != (
        #[trigger] rest[j]).id@ by {
            assert(links[i].id@ != links[j].id@);
        }
    }
    if q < before.len() {
        lemma_tributaries_differ(rest, down, p, q);
    } else {
        assert(before.contains(before[p]));
        let i = lemma_tributary_is_recorded(rest, down, before[p]);
        assert(rest[i] == links[i]);
        assert(links[i].id@ != links[links.len() - 1].id@);
    }
}

/// Of two units upstream of which `unit` lies, the nearer one lies upstream of
/// the farther one.
proof fn lemma_paths_meet(links: Seq<UnitLink>, near: i64, far: i64, unit: i64, m: nat, n: nat)
    requires
        recorded_once(links),
        m <= n,
        lies_upstream(links, near, unit, m),
        lies_upstream(links, far, unit, n),
    ensures
        lies_upstream(links, far, near, (n - m) as nat),
    decreases m,
{
    if m > 0 {
        let a = choose|down: i64|
            lies_upstream(links, near, down, (m - 1) as nat) && #[trigger] tributaries(
                links,
                down,
            ).contains(unit);
        let b = choose|down: i64|
            lies_upstream(links, far, down, (n - 1) as nat) && #[trigger] tributaries(
                links,
                down,
            ).contains(unit);
        lemma_one_downstream(links, a, b, unit);
        lemma_paths_meet(links, near, far, a, (m - 1) as nat, (n - 1) as nat);
    }
}

proof fn lemma_upstream_of_tributary(
    links: Seq<UnitLink>,
    down: i64,
    kid: i64,
    unit: i64,
    steps: nat,
)
    requires
        tributaries(links, down).contains(kid),
        lies_upstream(links, kid, unit, steps),
    ensures
        lies_upstream(links, down, unit, steps + 1),
    decreases steps,
{
    if steps == 0 {
        assert(lies_upstream(links, down, down, 0));
    } else {
        let next = choose|next: i64|
            lies_upstream(links, kid, next, (steps - 1) as nat) && #[trigger] tributaries(
                links,
                next,
            ).contains(unit);
        lemma_upstream_of_tributary(links, down, kid, next, (steps - 1) as nat);
    }
}

/// Tributaries upstream of which the same unit lies, by `m` links of the one and
/// by at least as many of the other, are one.
proof fn lemma_tributaries_meet(
    links: Seq<UnitLink>,
    heights: Map<i64, nat>,
    down: i64,
    a: i64,
    b: i64,
    unit: i64,
    m: nat,
    n: nat,
)
    requires
        recorded_once(links),
        measures(links, down, heights),
        tributaries(links, down).contains(a),
        tributaries(links, down).contains(b),
        m <= n,
        lies_upstream(links, a, unit, m),
        lies_upstream(links, b, unit, n),
    ensures
        a == b,
{
    lemma_paths_meet(links, a, b, unit, m, n);
    let steps = (n - m) as nat;
    if steps > 0 {
        let next = choose|next: i64|
            lies_upstream(links, b, next, (steps - 1) as nat) && #[trigger] tributaries(
                links,
                next,
            ).contains(a);
        lemma_one_downstream(links, next, down, a);
        let chain = lemma_chain(links, b, heights, down, (steps - 1) as nat);
    }
}

proof fn lemma_two_share(units: Seq<i64>, orders: Map<i64, u32>, order: int)
    requires
        sharing(units, orders, order) >= 1,
    ensures
        exists|p: int| 0 <= p < units.len() && orders[#[trigger] units[p]] == order,
        sharing(units, orders, order) >= 2 ==> exists|p: int, q: int|
            0 <= p < q < units.len() && orders[#[trigger] units[p]] == order && orders[
            #[trigger] units[q]] == order,
    decreases units.len(),
{
    let rest = units.drop_last();
    let last = units.len() - 1;
    if orders[units.last()] == order {
        assert(units[last] == units.last());
        if sharing(rest, orders, order) >= 1 {
            lemma_two_share(rest, orders, order);
            let p = choose|p: int| 0 <= p < rest.len() && orders[#[trigger] rest[p]] == order;
            assert(units[p] == rest[p]);
        }
    } else {
        lemma_two_share(rest, orders, order);
        let p = choose|p: int| 0 <= p < rest.len() && orders[#[trigger] rest[p]] == order;
        assert(units[p] == rest[p]);
        if sharing(units, orders, order) >= 2 {
            let (p, q) = choose|p: int, q: int|
                0 <= p < q < rest.len() && orders[#[trigger] rest[p]] == order && orders[
                #[trigger] rest[q]] == order;
            assert(units[p] == rest[p] && units[q] == rest[q]);
        }
    }
}

proof fn lemma_heads_of_tributary(
    links: Seq<UnitLink>,
    orders: Map<i64, u32>,
    down: i64,
    kid: i64,
)
    requires
        tributaries(links, down).contains(kid),
    ensures
        heads_above(links, orders, kid).subset_of(heads_above(links, orders, down)),
{
    assert forall|u: i64| heads_above(links, orders, kid).contains(u) implies heads_above(
        links,
        orders,
        down,
    ).contains(u) by {
        let steps = choose|steps: nat| lies_upstream(links, kid, u, steps);
        lemma_upstream_of_tributary(links, down, kid, u, steps);
    }
}

proof fn lemma_heads(
    links: Seq<UnitLink>,
    outlet: i64,
    heights: Map<i64, nat>,
    orders: Map<i64, u32>,
    unit: i64,
)
    requires
        recorded_once(links),
        measures(links, outlet, heights),
        met(links, outlet, heights, unit),
        is_ordering(links, outlet, orders),
        orders.dom().finite(),
    ensures
        orders[unit] >= 1,
        pow2((orders[unit] - 1) as nat) <= heads_above(links, orders, unit).len(),
    decreases heights[unit],
{
    let kids = tributaries(links, unit);
    let heads = heads_above(links, orders, unit);
    assert(orders.contains_key(unit));
    law_order_follows_tributaries(links, outlet, orders, unit);
    if kids.len() == 0 {
        lemma2_to64();
        assert(lies_upstream(links, unit, unit, 0));
        assert(heads.contains(unit));
        vstd::set_lib::lemma_len_subset(set![unit], heads);
    } else {
        let top = highest(kids, orders);
        lemma_highest(kids, orders);
        let i = choose|i: int| 0 <= i < kids.len() && orders[#[trigger] kids[i]] == top;
        assert(kids.contains(kids[i]));
        lemma_met_tributary(links, outlet, heights, unit, kids[i]);
        lemma_heads(links, outlet, heights, orders, kids[i]);
        lemma_heads_of_tributary(links, orders, unit, kids[i]);
        if sharing(kids, orders, top) < 2 {
            vstd::set_lib::lemma_len_subset(heads_above(links, orders, kids[i]), heads);
        } else {
            lemma_two_share(kids, orders, top);
            let (p, q) = choose|p: int, q: int|
                0 <= p < q < kids.len() && orders[#[trigger] kids[p]] == top && orders[
                #[trigger] kids[q]] == top;
            let (a, b) = (kids[p], kids[q]);
            lemma_tributaries_differ(links, unit, p, q);
            assert(kids.contains(a) && kids.contains(b));
            lemma_met_tributary(links, outlet, heights, unit, a);
            lemma_met_tributary(links, outlet, heights, unit, b);
            lemma_heads(links, outlet, heights, orders, a);
            lemma_heads(links, outlet, heights, orders, b);
            lemma_heads_of_tributary(links, orders, unit, a);
            lemma_heads_of_tributary(links, orders, unit, b);
            let left = heads_above(links, orders, a);
            let right = heads_above(links, orders, b);
            assert(left.disjoint(right)) by {
                assert forall|u: i64| left.contains(u) implies !right.contains(u) by {
                    if right.contains(u) {
                        let m = choose|steps: nat| lies_upstream(links, a, u, steps);
                        let n = choose|steps: nat| lies_upstream(links, b, u, steps);
                        if m <= n {
                            lemma_tributaries_meet(links, heights, unit, a, b, u, m, n);
                        } else {
                            lemma_tributaries_meet(links, heights, unit, b, a, u, n, m);
                        }
                    }
                }
            }
            vstd::set_lib::lemma_set_disjoint_lens(left, right);
            assert((left + right).subset_of(heads));
            vstd::set_lib::lemma_len_subset(left + right, heads);
            lemma_pow2_unfold(top as nat);
        }
    }
}

proof fn lemma_basin_is_finite(links: Seq<UnitLink>, outlet: i64, orders: Map<i64, u32>)
    requires
        is_ordering(links, outlet, orders),
    ensures
        orders.dom().finite(),
{
    broadcast use vstd::seq_lib::seq_to_set_is_finite;

    let ids = links.map_values(|l: UnitLink| l.id@);
    let all = ids.to_set().insert(outlet);
    assert forall|u: i64| orders.dom().contains(u) implies all.contains(u) by {
        assert(orders.contains_key(u));
        let steps = choose|steps: nat| lies_upstream(links, outlet, u, steps);
        if steps > 0 {
            let down = choose|down: i64|
                lies_upstream(links, outlet, down, (steps - 1) as nat) && #[trigger] tributaries(
                    links,
                    down,
                ).contains(u);
            let i = lemma_tributary_is_recorded(links, down, u);
            assert(ids[i] == u);
            assert(ids.contains(u));
        }
    }
    assert(orders.dom().subset_of(all));
    vstd::set_lib::lemma_len_subset(orders.dom(), all);
}

/// A high order takes many head units: where every unit drains into one unit at
/// most, an outlet of order `n` has at least two to the power of `n - 1` of them.
pub proof fn law_order_needs_head_units(
    links: Seq<UnitLink>,
    outlet: i64,
    orders: Map<i64, u32>,
)
    requires
        is_acyclic(links, outlet),
        is_ordering(links, outlet, orders),
        recorded_once(links),
    ensures
        head_units(links, orders).finite(),
        orders[outlet] >= 1,
        pow2((orders[outlet] - 1) as nat) <= head_units(links, orders).len(),
{
    let heights = choose|heights: Map<i64, nat>| #[trigger]
        measures(links, outlet, heights) && heights[outlet] < u32::MAX;
    assert(lies_upstream(links, outlet, outlet, 0));
    lemma_basin_is_finite(links, outlet, orders);
    lemma_heads(links, outlet, heights, orders, outlet);
    assert(heads_above(links, orders, outlet) =~= head_units(links, orders)) by {
        assert forall|u: i64| head_units(links, orders).contains(u) implies is_upstream(
            links,
            outlet,
            u,
        ) by {
            assert(orders.contains_key(u));
        }
    }
}

/// The units with the order `order`.
pub open spec fn units_of_order(orders: Map<i64, u32>, order: int) -> Set<i64> {
    orders.dom().filter(|u: i64| orders[u] == order)
}

/// `counts` says of every order how many units have it, from order one up to the
/// highest that occurs.
pub open spec fn is_tally(orders: Map<i64, u32>, counts: Seq<usize>) -> bool {
    &&& forall|i: int|
        0 <= i < counts.len() ==> #[trigger] counts[i] == units_of_order(orders, i + 1).len()
    &&& forall|u: i64| #[trigger] orders.contains_key(u) ==> orders[u] <= counts.len()
    &&& counts.len() > 0 ==> exists|u: i64| #[trigger]
        orders.contains_key(u) && orders[u] == counts.len()
}

/// Counting along a list of all units counts the set.
proof fn lemma_sharing_is_cardinality(units: Seq<i64>, orders: Map<i64, u32>, order: int)
    requires
        units.no_duplicates(),
        forall|u: i64| #[trigger] units.contains(u) ==> orders.contains_key(u),
    ensures
        sharing(units, orders, order) == units.to_set().filter(|u: i64| orders[u] == order).len(),
    decreases units.len(),
{
    broadcast use vstd::seq_lib::seq_to_set_is_finite;

    let p = |u: i64| orders[u] == order;
    if units.len() == 0 {
        assert(units.to_set().filter(p) =~= Set::empty());
    } else {
        let rest = units.drop_last();
        let last = units.last();
        assert forall|u: i64| #[trigger] rest.contains(u) implies orders.contains_key(u) by {
            let i = choose|i: int| 0 <= i < rest.len() && rest[i] == u;
            assert(units[i] == u);
            assert(units.contains(u));
        }
        lemma_sharing_is_cardinality(rest, orders, order);
        assert forall|u: i64| units.contains(u) <==> rest.contains(u) || u == last by {
            if units.contains(u) {
                let i = choose|i: int| 0 <= i < units.len() && units[i] == u;
                if i < rest.len() {
                    assert(rest[i] == u);
                }
            }
            if rest.contains(u) {
                let i = choose|i: int| 0 <= i < rest.len() && rest[i] == u;
                assert(units[i] == u);
            }
            assert(units[units.len() - 1] == last);
        }
        assert(!rest.contains(last));
        if orders[last] == order {
            assert(units.to_set().filter(p) =~= rest.to_set().filter(p).insert(last));
        } else {
            assert(units.to_set().filter(p) =~= rest.to_set().filter(p));
        }
    }
}

/// In a basin without cycles no entry of the tally is zero.
pub proof fn law_tally_has_no_gap(
    links: Seq<UnitLink>,
    outlet: i64,
    orders: Map<i64, u32>,
    counts: Seq<usize>,
    i: int,
)
    requires
        is_acyclic(links, outlet),
        is_ordering(links, outlet, orders),
        orders.dom().finite(),
        is_tally(orders, counts),
        0 <= i < counts.len(),
    ensures
        counts[i] > 0,
{
    let top = choose|u: i64| #[trigger] orders.contains_key(u) && orders[u] == counts.len();
    law_no_order_is_skipped(links, outlet, orders, top, i + 1);
    let u = choose|u: i64| #[trigger] orders.contains_key(u) && orders[u] == i + 1;
    let some = units_of_order(orders, i + 1);
    assert(some.contains(u));
    assert(some.len() > 0);
}

impl StrahlerOrders {
    /// The order of a unit, if the basin holds it.
    pub fn order_of(&self, unit: UnitId) -> (r: Option<u32>)
        ensures
            r == if self@.contains_key(unit@) {
                Some(self@[unit@])
            } else {
                None
            },
    {
        match self.orders.get(&unit.get()) {
            Some(order) => Some(*order),
            None => None,
        }
    }

    /// How many units the basin holds.
    pub fn len(&self) -> (r: usize)
        ensures
            r == self@.dom().len(),
            self@.dom().finite(),
    {
        proof {
            use_type_invariant(self);
            self.lemma_units_are_the_domain();
        }
        self.units.len()
    }

    proof fn lemma_units_are_the_domain(&self)
        requires
            self.listed_once(),
        ensures
            self.units@.to_set() == self@.dom(),
            self@.dom().finite(),
            self.units@.len() == self@.dom().len(),
    {
        broadcast use vstd::seq_lib::seq_to_set_is_finite;

        assert(self.units@.to_set() =~= self@.dom());
        self.units@.unique_seq_to_set();
    }

    /// How many units have each order, from order one up to the highest; the
    /// number of entries is the highest order.
    pub fn order_counts(&self) -> (counts: Vec<usize>)
        ensures
            is_tally(self@, counts@),
            self@.dom().finite(),
    {
        proof {
            use_type_invariant(self);
        }
        let mut counts: Vec<usize> = Vec::new();
        for i in 0..self.units.len()
            invariant
                self.listed_once(),
                counts@.len() == highest(self.units@.take(i as int), self@),
                forall|k: int|
                    0 <= k < counts@.len() ==> #[trigger] counts@[k] == sharing(
                        self.units@.take(i as int),
                        self@,
                        k + 1,
                    ) && counts@[k] <= i,
        {
            let ghost seen = self.units@.take(i as int);
            assert(self.units@.take(i + 1).drop_last() =~= seen);
            assert(self.units@.take(i + 1).last() == self.units@[i as int]);
            assert(self.units@.contains(self.units@[i as int]));
            let order = match self.orders.get(&self.units[i]) {
                Some(order) => *order,
                None => 1,
            };
            assert(order == self@[self.units@[i as int]]);
            proof {
                lemma_highest(seen, self@);
            }
            let ghost old_len = counts@.len();
            while counts.len() < order as usize
                invariant
                    old_len <= counts@.len(),
                    old_len == highest(seen, self@),
                    counts@.len() <= order || counts@.len() == old_len,
                    forall|k: int|
                        0 <= k < counts@.len() ==> #[trigger] counts@[k] == sharing(
                            seen,
                            self@,
                            k + 1,
                        ) && counts@[k] <= i,
                decreases order - counts@.len(),
            {
                proof {
                    lemma_sharing_above(seen, self@, counts@.len() as int + 1);
                }
                counts.push(0);
            }
            let slot = order as usize - 1;
            let count = counts[slot];
            counts.set(slot, count + 1);
        }
        proof {
            let all = self.units@;
            assert(all.take(all.len() as int) =~= all);
            self.lemma_units_are_the_domain();
            lemma_highest(all, self@);
            assert forall|i: int| 0 <= i < counts@.len() implies #[trigger] counts@[i]
                == units_of_order(self@, i + 1).len() by {
                lemma_sharing_is_cardinality(all, self@, i + 1);
                assert(units_of_order(self@, i + 1) =~= all.to_set().filter(
                    |u: i64| self@[u] == i + 1,
                ));
            }
            assert forall|u: i64| #[trigger] self@.contains_key(u) implies self@[u]
                <= counts@.len() by {
                assert(all.contains(u));
                let k = choose|k: int| 0 <= k < all.len() && all[k] == u;
                assert(self@[all[k]] <= highest(all, self@));
            }
            if counts@.len() > 0 {
                let k = choose|k: int|
                    0 <= k < all.len() && self@[#[trigger] all[k]] == highest(all, self@);
                assert(all.contains(all[k]));
                assert(self@.contains_key(all[k]));
            }
        }
        counts
    }
}

// ---- what the records say ----

/// The tributaries of a unit are the units of all records that name it as the one
/// they drain into, in the order of the records, and no others.
pub proof fn law_tributaries_are_the_records(links: Seq<UnitLink>, down: i64)
    ensures
        tributaries(links, down) == links.filter(
            |link: UnitLink| link.downstream_id is Some && link.downstream_id->0@ == down,
        ).map_values(|link: UnitLink| link.id@),
        forall|i: int|
            0 <= i < links.len() && (#[trigger] links[i]).downstream_id is Some
                && links[i].downstream_id->0@ == down ==> tributaries(links, down).contains(
                links[i].id@,
            ),
        forall|unit: i64| #[trigger]
            tributaries(links, down).contains(unit) ==> exists|i: int|
                0 <= i < links.len() && (#[trigger] links[i]).id@ == unit && links[i].downstream_id
                    is Some && links[i].downstream_id->0@ == down,
    decreases links.len(),
{
    let p = |link: UnitLink| link.downstream_id is Some && link.downstream_id->0@ == down;
    let f = |link: UnitLink| link.id@;
    let units = tributaries(links, down);
    if links.len() == 0 {
        lemma_filter_empty(p);
        assert(links =~= Seq::<UnitLink>::empty());
        assert(units =~= links.filter(p).map_values(f));
    } else {
        let rest = links.drop_last();
        let last = links.last();
        law_tributaries_are_the_records(rest, down);
        assert(rest.push(last) =~= links);
        lemma_filter_push(rest, last, p);
        assert(units =~= links.filter(p).map_values(f));
        assert forall|i: int|
            0 <= i < links.len() && (#[trigger] links[i]).downstream_id is Some
                && links[i].downstream_id->0@ == down implies units.contains(links[i].id@) by {
            if i < rest.len() {
                assert(rest[i] == links[i]);
                let before = tributaries(rest, down);
                let k = choose|k: int| 0 <= k < before.len() && before[k] == links[i].id@;
                assert(units[k] == links[i].id@);
            } else {
                assert(units[units.len() - 1] == links[i].id@);
            }
        }
        assert forall|unit: i64| #[trigger] units.contains(unit) implies exists|i: int|
            0 <= i < links.len() && (#[trigger] links[i]).id@ == unit && links[i].downstream_id
                is Some && links[i].downstream_id->0@ == down by {
            let i = lemma_tributary_is_recorded(links, down, unit);
            assert(links[i].id@ == unit);
        }
    }
}

/// The basin ends at the last unit that drains into none, and at the terminal unit
/// where every unit drains into another.
pub proof fn law_basin_ends_at_the_last_end(terminal: i64, links: Seq<UnitLink>)
    ensures
        (forall|i: int| 0 <= i < links.len() ==> (#[trigger] links[i]).downstream_id is Some)
            ==> outlet_of(terminal, links) == terminal,
        forall|i: int|
            0 <= i < links.len() && (#[trigger] links[i]).downstream_id is None && (forall|j: int|
                i < j < links.len() ==> (#[trigger] links[j]).downstream_id is Some) ==> outlet_of(
                terminal,
                links,
            ) == links[i].id@,
    decreases links.len(),
{
    if links.len() > 0 {
        let rest = links.drop_last();
        let last = links.len() - 1;
        law_basin_ends_at_the_last_end(terminal, rest);
        assert(links[last] == links.last());
        if forall|i: int| 0 <= i < links.len() ==> (#[trigger] links[i]).downstream_id is Some {
            assert forall|i: int| 0 <= i < rest.len() implies (
            #[trigger] rest[i]).downstream_id is Some by {
                assert(rest[i] == links[i]);
            }
        }
        assert forall|i: int|
            0 <= i < links.len() && (#[trigger] links[i]).downstream_id is None && (forall|j: int|
                i < j < links.len() ==> (#[trigger] links[j]).downstream_id is Some) implies outlet_of(
            terminal,
            links,
        ) == links[i].id@ by {
            if i < last {
                assert(links[last].downstream_id is Some);
                assert(rest[i] == links[i]);
                assert forall|j: int| i < j < rest.len() implies (
                #[trigger] rest[j]).downstream_id is Some by {
                    assert(rest[j] == links[j]);
                }
            }
        }
    }
}

proof fn lemma_within(links: Seq<UnitLink>, outlet: i64, region: Set<i64>, unit: i64, steps: nat)
    requires
        region.contains(outlet),
        forall|i: int|
            0 <= i < links.len() && (#[trigger] links[i]).downstream_id is Some && region.contains(
                links[i].downstream_id->0@,
            ) ==> region.contains(links[i].id@),
        lies_upstream(links, outlet, unit, steps),
    ensures
        region.contains(unit),
    decreases steps,
{
    if steps > 0 {
        let down = choose|down: i64|
            lies_upstream(links, outlet, down, (steps - 1) as nat) && #[trigger] tributaries(
                links,
                down,
            ).contains(unit);
        lemma_within(links, outlet, region, down, (steps - 1) as nat);
        law_tributaries_are_the_records(links, down);
        let i = choose|i: int|
            0 <= i < links.len() && (#[trigger] links[i]).id@ == unit && links[i].downstream_id
                is Some && links[i].downstream_id->0@ == down;
        assert(region.contains(links[i].id@));
    }
}

/// The units that have an order are those of the smallest region that holds the
/// outlet and, with a unit, every unit recorded as draining into it.
pub proof fn law_basin_is_all_that_drains_to_the_outlet(
    links: Seq<UnitLink>,
    outlet: i64,
    orders: Map<i64, u32>,
    region: Set<i64>,
)
    requires
        is_ordering(links, outlet, orders),
    ensures
        orders.contains_key(outlet),
        forall|i: int|
            0 <= i < links.len() && (#[trigger] links[i]).downstream_id is Some
                && orders.contains_key(links[i].downstream_id->0@) ==> orders.contains_key(
                links[i].id@,
            ),
        region.contains(outlet) && (forall|i: int|
            0 <= i < links.len() && (#[trigger] links[i]).downstream_id is Some && region.contains(
                links[i].downstream_id->0@,
            ) ==> region.contains(links[i].id@)) ==> orders.dom().subset_of(region),
{
    assert(lies_upstream(links, outlet, outlet, 0));
    assert(is_upstream(links, outlet, outlet));
    assert forall|i: int|
        0 <= i < links.len() && (#[trigger] links[i]).downstream_id is Some && orders.contains_key(
            links[i].downstream_id->0@,
        ) implies orders.contains_key(links[i].id@) by {
        let down = links[i].downstream_id->0@;
        law_tributaries_are_the_records(links, down);
        let steps = choose|steps: nat| lies_upstream(links, outlet, down, steps);
        assert(tributaries(links, down).contains(links[i].id@));
        assert(lies_upstream(links, outlet, links[i].id@, steps + 1));
        assert(is_upstream(links, outlet, links[i].id@));
    }
    if region.contains(outlet) && (forall|i: int|
        0 <= i < links.len() && (#[trigger] links[i]).downstream_id is Some && region.contains(
            links[i].downstream_id->0@,
        ) ==> region.contains(links[i].id@)) {
        assert forall|unit: i64| orders.dom().contains(unit) implies region.contains(unit) by {
            assert(orders.contains_key(unit));
            let steps = choose|steps: nat| lies_upstream(links, outlet, unit, steps);
            lemma_within(links, outlet, region, unit, steps);
        }
    }
}

proof fn lemma_shared_by_records(
    links: Seq<UnitLink>,
    down: i64,
    orders: Map<i64, u32>,
    order: int,
    i: int,
    j: int,
)
    requires
        0 <= i < links.len() && 0 <= j < links.len(),
        links[i].downstream_id is Some && links[i].downstream_id->0@ == down,
        links[j].downstream_id is Some && links[j].downstream_id->0@ == down,
        orders[links[i].id@] == order,
        orders[links[j].id@] == order,
    ensures
        sharing(tributaries(links, down), orders, order) >= if i == j {
            1
        } else {
            2int
        },
    decreases links.len(),
{
    let rest = links.drop_last();
    let before = tributaries(rest, down);
    let last = links.len() - 1;
    assert(before.push(links.last().id@).drop_last() =~= before);
    if i < last && j < last {
        assert(rest[i] == links[i] && rest[j] == links[j]);
        lemma_shared_by_records(rest, down, orders, order, i, j);
    } else if i < last {
        assert(rest[i] == links[i]);
        lemma_shared_by_records(rest, down, orders, order, i, i);
    } else if j < last {
        assert(rest[j] == links[j]);
        lemma_shared_by_records(rest, down, orders, order, j, j);
    }
}

proof fn lemma_shared_by_one_record(
    links: Seq<UnitLink>,
    down: i64,
    orders: Map<i64, u32>,
    order: int,
    i: int,
)
    requires
        forall|j: int|
            0 <= j < links.len() && j != i && (#[trigger] links[j]).downstream_id is Some
                && links[j].downstream_id->0@ == down ==> orders[links[j].id@] != order,
    ensures
        sharing(tributaries(links, down), orders, order) <= if 0 <= i < links.len() {
            1
        } else {
            0int
        },
    decreases links.len(),
{
    if links.len() > 0 {
        let rest = links.drop_last();
        let before = tributaries(rest, down);
        assert(before.push(links.last().id@).drop_last() =~= before);
        assert(links[links.len() - 1] == links.last());
        assert forall|j: int|
            0 <= j < rest.len() && j != i && (#[trigger] rest[j]).downstream_id is Some
                && rest[j].downstream_id->0@ == down implies orders[rest[j].id@] != order by {
            assert(rest[j] == links[j]);
        }
        lemma_shared_by_one_record(rest, down, orders, order, i);
    }
}

/// A unit into which no record drains has order one.
pub proof fn law_head_unit_has_order_one(
    links: Seq<UnitLink>,
    outlet: i64,
    orders: Map<i64, u32>,
    unit: i64,
)
    requires
        is_ordering(links, outlet, orders),
        orders.contains_key(unit),
        forall|i: int|
            0 <= i < links.len() ==> !((#[trigger] links[i]).downstream_id is Some
                && links[i].downstream_id->0@ == unit),
    ensures
        orders[unit] == 1,
{
    law_tributaries_are_the_records(links, unit);
    let kids = tributaries(links, unit);
    if kids.len() > 0 {
        assert(kids.contains(kids[0]));
    }
}

/// Where one record that drains into a unit has a higher order than all others,
/// the unit has the order of that record's unit.
pub proof fn law_single_highest_order_passes_on(
    links: Seq<UnitLink>,
    outlet: i64,
    orders: Map<i64, u32>,
    unit: i64,
    i: int,
)
    requires
        is_ordering(links, outlet, orders),
        orders.contains_key(unit),
        0 <= i < links.len(),
        links[i].downstream_id is Some && links[i].downstream_id->0@ == unit,
        forall|j: int|
            0 <= j < links.len() && j != i && (#[trigger] links[j]).downstream_id is Some
                && links[j].downstream_id->0@ == unit ==> orders[links[j].id@]
                < orders[links[i].id@],
    ensures
        orders[unit] == orders[links[i].id@],
{
    let kids = tributaries(links, unit);
    let top = orders[links[i].id@] as int;
    law_tributaries_are_the_records(links, unit);
    lemma_highest(kids, orders);
    assert(kids.contains(links[i].id@));
    let k = choose|k: int| 0 <= k < kids.len() && kids[k] == links[i].id@;
    assert(orders[kids[k]] <= highest(kids, orders));
    let h = choose|h: int|
        0 <= h < kids.len() && orders[#[trigger] kids[h]] == highest(kids, orders);
    assert(kids.contains(kids[h]));
    let j = choose|j: int|
        0 <= j < links.len() && (#[trigger] links[j]).id@ == kids[h] && links[j].downstream_id
            is Some && links[j].downstream_id->0@ == unit;
    assert(orders[links[j].id@] <= top);
    lemma_shared_by_one_record(links, unit, orders, top, i);
}

/// Where two records that drain into a unit share the highest order, the unit has
/// the next one.
pub proof fn law_two_highest_orders_raise(
    links: Seq<UnitLink>,
    outlet: i64,
    orders: Map<i64, u32>,
    unit: i64,
    i: int,
    j: int,
)
    requires
        is_ordering(links, outlet, orders),
        orders.contains_key(unit),
        0 <= i < links.len() && 0 <= j < links.len() && i != j,
        links[i].downstream_id is Some && links[i].downstream_id->0@ == unit,
        links[j].downstream_id is Some && links[j].downstream_id->0@ == unit,
        orders[links[i].id@] == orders[links[j].id@],
        forall|k: int|
            0 <= k < links.len() && (#[trigger] links[k]).downstream_id is Some
                && links[k].downstream_id->0@ == unit ==> orders[links[k].id@]
                <= orders[links[i].id@],
    ensures
        orders[unit] == orders[links[i].id@] + 1,
{
    let kids = tributaries(links, unit);
    let top = orders[links[i].id@] as int;
    law_tributaries_are_the_records(links, unit);
    lemma_highest(kids, orders);
    assert(kids.contains(links[i].id@));
    let k = choose|k: int| 0 <= k < kids.len() && kids[k] == links[i].id@;
    assert(orders[kids[k]] <= highest(kids, orders));
    let h = choose|h: int|
        0 <= h < kids.len() && orders[#[trigger] kids[h]] == highest(kids, orders);
    assert(kids.contains(kids[h]));
    let m = choose|m: int|
        0 <= m < links.len() && (#[trigger] links[m]).id@ == kids[h] && links[m].downstream_id
            is Some && links[m].downstream_id->0@ == unit;
    assert(orders[links[m].id@] <= top);
    lemma_shared_by_records(links, unit, orders, top, i, j);
}

/// The sum of counts.
pub open spec fn total_of(counts: Seq<usize>) -> nat
    decreases counts.len(),
{
    if counts.len() == 0 {
        0
    } else {
        total_of(counts.drop_last()) + counts.last() as nat
    }
}

proof fn lemma_total_up_to(orders: Map<i64, u32>, counts: Seq<usize>, k: int)
    requires
        is_tally(orders, counts),
        orders.dom().finite(),
        forall|u: i64| #[trigger] orders.contains_key(u) ==> orders[u] > 0,
        0 <= k <= counts.len(),
    ensures
        total_of(counts.take(k)) == orders.dom().filter(|u: i64| orders[u] <= k).len(),
    decreases k,
{
    let upto = orders.dom().filter(|u: i64| orders[u] <= k);
    if k == 0 {
        assert(upto =~= Set::empty()) by {
            assert forall|u: i64| !upto.contains(u) by {
                if upto.contains(u) {
                    assert(orders.contains_key(u));
                }
            }
        }
    } else {
        let below = orders.dom().filter(|u: i64| orders[u] <= k - 1);
        let at = units_of_order(orders, k);
        lemma_total_up_to(orders, counts, k - 1);
        assert(counts.take(k).drop_last() =~= counts.take(k - 1));
        assert(counts[k - 1] == units_of_order(orders, k - 1 + 1).len());
        assert(upto =~= below + at);
        assert(below.disjoint(at));
        vstd::set_lib::lemma_set_disjoint_lens(below, at);
    }
}

/// The tally counts every unit once, at its order, and ends with the highest order.
pub proof fn law_tally_counts_every_unit(
    links: Seq<UnitLink>,
    outlet: i64,
    orders: Map<i64, u32>,
    counts: Seq<usize>,
)
    requires
        is_acyclic(links, outlet),
        is_ordering(links, outlet, orders),
        is_tally(orders, counts),
    ensures
        total_of(counts) == orders.dom().len(),
        forall|i: int|
            0 <= i < counts.len() ==> #[trigger] counts[i] == orders.dom().filter(
                |u: i64| orders[u] == i + 1,
            ).len(),
        counts.len() == orders[outlet],
        counts.len() > 0,
{
    let heights = choose|heights: Map<i64, nat>| #[trigger]
        measures(links, outlet, heights) && heights[outlet] < u32::MAX;
    lemma_basin_is_finite(links, outlet, orders);
    assert forall|u: i64| #[trigger] orders.contains_key(u) implies orders[u] > 0 by {
        lemma_upstream_is_met(links, outlet, heights, u);
        lemma_order_is_positive(links, outlet, heights, orders, u);
    }
    lemma_total_up_to(orders, counts, counts.len() as int);
    assert(counts.take(counts.len() as int) =~= counts);
    assert(orders.dom().filter(|u: i64| orders[u] <= counts.len()) =~= orders.dom()) by {
        assert forall|u: i64| orders.dom().contains(u) implies orders[u] <= counts.len() by {
            assert(orders.contains_key(u));
        }
    }
    assert forall|i: int| 0 <= i < counts.len() implies #[trigger] counts[i]
        == orders.dom().filter(|u: i64| orders[u] == i + 1).len() by {
        assert(units_of_order(orders, i + 1) =~= orders.dom().filter(
            |u: i64| orders[u] == i + 1,
        ));
    }
    law_basin_is_all_that_drains_to_the_outlet(links, outlet, orders, Set::empty());
    if counts.len() > 0 {
        let u = choose|u: i64| #[trigger] orders.contains_key(u) && orders[u] == counts.len();
        law_outlet_has_the_highest_order(links, outlet, orders, u);
    }
}

proof fn lemma_order_is_positive(
    links: Seq<UnitLink>,
    outlet: i64,
    heights: Map<i64, nat>,
    orders: Map<i64, u32>,
    unit: i64,
)
    requires
        measures(links, outlet, heights),
        met(links, outlet, heights, unit),
        is_ordering(links, outlet, orders),
    ensures
        orders[unit] > 0,
    decreases heights[unit],
{
    let kids = tributaries(links, unit);
    assert(orders.contains_key(unit));
    if kids.len() > 0 {
        lemma_highest(kids, orders);
        assert(kids.contains(kids[0]));
        lemma_met_tributary(links, outlet, heights, unit, kids[0]);
        lemma_order_is_positive(links, outlet, heights, orders, kids[0]);
        assert(orders[kids[0]] <= highest(kids, orders));
    }
}

/// A basin in which every recorded unit ranks below the one it drains into has no
/// cycle.
pub proof fn law_ranked_basin_is_acyclic(
    links: Seq<UnitLink>,
    outlet: i64,
    rank: spec_fn(i64) -> nat,
)
    requires
        forall|i: int|
            0 <= i < links.len() && (#[trigger] links[i]).downstream_id is Some ==> rank(
                links[i].id@,
            ) < rank(links[i].downstream_id->0@),
        rank(outlet) < u32::MAX,
    ensures
        is_acyclic(links, outlet),
{
    let heights = Map::<i64, nat>::new(|u: i64| true, |u: i64| rank(u));
    assert forall|down: i64, unit: i64|
        heights.contains_key(down) && #[trigger] tributaries(links, down).contains(
            unit,
        ) implies heights.contains_key(unit) && heights[unit] < heights[down] by {
        law_tributaries_are_the_records(links, down);
        let i = choose|i: int|
            0 <= i < links.len() && (#[trigger] links[i]).id@ == unit && links[i].downstream_id
                is Some && links[i].downstream_id->0@ == down;
        assert(rank(links[i].id@) < rank(links[i].downstream_id->0@));
    }
    assert(measures(links, outlet, heights));
}

/// A basin that holds a circle of units, each draining into the one before it, has
/// a cycle.
pub proof fn law_circle_is_a_cycle(links: Seq<UnitLink>, outlet: i64, circle: Seq<i64>)
    requires
        circle.len() >= 2,
        circle.first() == circle.last(),
        is_upstream(links, outlet, circle.first()),
        forall|k: int|
            0 <= k < circle.len() - 1 ==> tributaries(links, #[trigger] circle[k]).contains(
                circle[k + 1],
            ),
    ensures
        !is_acyclic(links, outlet),
{
    if is_acyclic(links, outlet) {
        let heights = choose|heights: Map<i64, nat>| #[trigger]
            measures(links, outlet, heights) && heights[outlet] < u32::MAX;
        lemma_upstream_is_met(links, outlet, heights, circle.first());
        lemma_circle_falls(links, outlet, heights, circle, circle.len() - 1);
    }
}

proof fn lemma_circle_falls(
    links: Seq<UnitLink>,
    outlet: i64,
    heights: Map<i64, nat>,
    circle: Seq<i64>,
    k: int,
)
    requires
        measures(links, outlet, heights),
        0 <= k < circle.len(),
        heights.contains_key(circle[0]),
        forall|j: int|
            0 <= j < circle.len() - 1 ==> tributaries(links, #[trigger] circle[j]).contains(
                circle[j + 1],
            ),
    ensures
        heights.contains_key(circle[k]),
        heights[circle[k]] + k <= heights[circle[0]],
    decreases k,
{
    if k > 0 {
        lemma_circle_falls(links, outlet, heights, circle, k - 1);
        assert(tributaries(links, circle[k - 1]).contains(circle[k]));
    }
}

} // verus!
