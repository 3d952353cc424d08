//! Closed tours of a graph, and the two ways in which the search changes one.
//!
//! A tour is written as the positions of the graph's locations in visiting
//! order, with the first position once more at the end.

use crate::graph::{joined, GraphView};
use vstd::prelude::*;
use vstd::seq_lib::lemma_multiset_commutative;

verus! {

broadcast use vstd::seq_lib::group_to_multiset_ensures;



/// The positions `0` to `n - 1` in rising order.
pub open spec fn natural_order(n: nat) -> Seq<usize> {
    Seq::new(n, |i: int| i as usize)
}

/// A closed tour of the graph: every position of the graph once, in some
/// order, and then the first of them again.
pub open spec fn is_closed_tour(g: GraphView, route: Seq<usize>) -> bool {
    &&& g.nodes.len() > 0
    &&& route.len() == g.nodes.len() + 1
    &&& route[route.len() - 1] == route[0]
    &&& route.drop_last().to_multiset() == natural_order(g.nodes.len()).to_multiset()
}

/// Whether every step of the route, the closing one too, goes along an edge.
pub open spec fn is_feasible(g: GraphView, route: Seq<usize>) -> bool {
    forall|k: int| 0 <= k < route.len() - 1 ==> #[trigger] joined(g, route, k)
}

/// The index before `x` on a closed route of `len` entries, going round: the
/// repeated last entry does not count.
pub open spec fn before(len: int, x: int) -> int {
    if x == 0 {
        len - 2
    } else {
        x - 1
    }
}

/// The index after `x` on a closed route of `len` entries, going round.
pub open spec fn after(len: int, x: int) -> int {
    if x == len - 2 {
        0
    } else {
        x + 1
    }
}

/// Whether the steps to and from the entries at `i` and `j` of a closed
/// route go along edges: for each of the two, the step from the entry before
/// it and the step to the entry after it, going round.
pub open spec fn steps_hold_around(g: GraphView, route: Seq<usize>, i: int, j: int) -> bool {
    let len = route.len() as int;
    &&& g.adjacent(route[before(len, i)] as int, route[i] as int)
    &&& g.adjacent(route[i] as int, route[after(len, i)] as int)
    &&& g.adjacent(route[before(len, j)] as int, route[j] as int)
    &&& g.adjacent(route[j] as int, route[after(len, j)] as int)
}

/// The route with the entries at `i` and `j` exchanged and its last entry
/// made equal to its first again.
pub open spec fn swapped(route: Seq<usize>, i: int, j: int) -> Seq<usize> {
    let exchanged = route.update(i, route[j]).update(j, route[i]);
    exchanged.update(exchanged.len() - 1, exchanged[0])
}

/// The route with the entries from `i` to `j` in reverse order and its last
/// entry made equal to its first again.
pub open spec fn reversed(route: Seq<usize>, i: int, j: int) -> Seq<usize> {
    let body = Seq::new(
        (route.len() - 1) as nat,
        |k: int|
            if i <= k <= j {
                route[i + j - k]
            } else {
                route[k]
            },
    );
    body.push(body[0])
}

/// The test that an exchange of the entries at `i` and `j` must pass: once
/// the two are exchanged, the steps to and from both go along edges.
pub open spec fn swap_valid(g: GraphView, route: Seq<usize>, i: int, j: int) -> bool {
    steps_hold_around(g, swapped(route, i, j), i, j)
}

/// The test that a reversal of the entries from `i` to `j` must pass: once
/// the stretch is turned round, the steps to and from its two ends go along
/// edges.
pub open spec fn reversal_valid(g: GraphView, route: Seq<usize>, i: int, j: int) -> bool {
    steps_hold_around(g, reversed(route, i, j), i, j)
}

/// Whether `next` is `route` after an exchange of two different entries that
/// passed the test.
pub open spec fn is_exchange_of(g: GraphView, route: Seq<usize>, next: Seq<usize>) -> bool {
    exists|i: int, j: int|
        0 <= i < route.len() - 1 && 0 <= j < route.len() - 1 && i != j && swap_valid(g, route, i, j)
            && next == #[trigger] swapped(route, i, j)
}

/// Whether `next` is `route` with a stretch of at least two entries reversed
/// that passed the test.
pub open spec fn is_reversal_of(g: GraphView, route: Seq<usize>, next: Seq<usize>) -> bool {
    exists|i: int, j: int|
        0 <= i < j < route.len() - 1 && reversal_valid(g, route, i, j) && next
            == #[trigger] reversed(route, i, j)
}

/// Whether `next` may follow `route` in the search: it is `route` itself, or
/// `route` after an exchange, or `route` with a stretch reversed.
pub open spec fn is_perturbation(g: GraphView, route: Seq<usize>, next: Seq<usize>) -> bool {
    next == route || is_exchange_of(g, route, next) || is_reversal_of(g, route, next)
}

/// Whether the route has two entries to exchange and every exchange of two
/// different entries passes the test.
pub open spec fn every_exchange_passes(g: GraphView, route: Seq<usize>) -> bool {
    &&& route.len() >= 3
    &&& forall|i: int, j: int|
        0 <= i < route.len() - 1 && 0 <= j < route.len() - 1 && i != j ==> #[trigger] swap_valid(
            g,
            route,
            i,
            j,
        )
}

/// Whether no exchange of two different entries passes the test.
pub open spec fn no_exchange_passes(g: GraphView, route: Seq<usize>) -> bool {
    forall|i: int, j: int|
        0 <= i < route.len() - 1 && 0 <= j < route.len() - 1 && i != j ==> !#[trigger] swap_valid(
            g,
            route,
            i,
            j,
        )
}

/// Whether the route has a stretch to reverse and every reversal of a
/// stretch passes the test.
pub open spec fn every_reversal_passes(g: GraphView, route: Seq<usize>) -> bool {
    &&& route.len() >= 3
    &&& forall|i: int, j: int|
        0 <= i < j < route.len() - 1 ==> #[trigger] reversal_valid(g, route, i, j)
}

/// Whether an edge joins every two different positions of the graph.
pub open spec fn is_complete(g: GraphView) -> bool {
    forall|a: int, b: int|
        0 <= a < g.nodes.len() && 0 <= b < g.nodes.len() && a != b ==> #[trigger] g.adjacent(a, b)
}

/// Whether every visiting order can be closed: an edge leads from each
/// position to each other, and a single position has an edge to itself.
pub open spec fn every_order_closes(g: GraphView) -> bool {
    &&& g.nodes.len() > 0
    &&& forall|a: int, b: int|
        0 <= a < g.nodes.len() && 0 <= b < g.nodes.len() && (a != b || g.nodes.len() == 1)
            ==> #[trigger] g.adjacent(a, b)
}

/// In the rising order every position of the graph stands once, and nothing
/// else.
pub proof fn lemma_natural_order_counts(n: nat, x: usize)
    requires
        n <= usize::MAX,
    ensures
        natural_order(n).to_multiset().count(x) == (if x < n {
            1nat
        } else {
            0nat
        }),
{
    let order = natural_order(n);
    assert(order.no_duplicates());
    order.lemma_multiset_has_no_duplicates();
    if x < n {
        assert(order[x as int] == x);
        assert(order.contains(x));
    } else {
        if order.contains(x) {
            let k = choose|k: int| 0 <= k < order.len() && order[k] == x;
            assert(order[k] == k);
        }
    }
}

/// A closed tour visits every position of the graph exactly once before it
/// returns to the first: each position occurs once among the entries before
/// the last, these entries are positions of the graph, and no two of them
/// are the same.
pub proof fn lemma_tour_visits_each_once(g: GraphView, route: Seq<usize>)
    requires
        g.nodes.len() <= usize::MAX,
        is_closed_tour(g, route),
    ensures
        forall|x: usize| x < g.nodes.len() ==> route.drop_last().to_multiset().count(x) == 1,
        forall|x: usize| x < g.nodes.len() ==> route.drop_last().contains(x),
        forall|k: int| 0 <= k < route.len() ==> (#[trigger] route[k]) < g.nodes.len(),
        route.drop_last().no_duplicates(),
{
    let n = g.nodes.len();
    let body = route.drop_last();
    assert forall|x: usize| body.to_multiset().count(x) == (if x < n {
        1nat
    } else {
        0nat
    }) by {
        lemma_natural_order_counts(n, x);
    }
    body.lemma_multiset_has_no_duplicates_conv();
    assert forall|x: usize| x < n implies body.contains(x) by {
        assert(body.to_multiset().count(x) > 0);
    }
    assert forall|k: int| 0 <= k < route.len() implies (#[trigger] route[k]) < n by {
        let m = if k < n { k } else { 0 };
        assert(route[k] == body[m]);
        assert(body.contains(body[m]));
        assert(body.to_multiset().count(body[m]) > 0);
    }
}

/// An exchange of two entries turns a closed tour into a closed tour.
pub proof fn lemma_swap_keeps_tour(g: GraphView, route: Seq<usize>, i: int, j: int)
    requires
        is_closed_tour(g, route),
        0 <= i < route.len() - 1,
        0 <= j < route.len() - 1,
    ensures
        is_closed_tour(g, swapped(route, i, j)),
{
    broadcast use vstd::multiset::group_multiset_axioms;

    let body = route.drop_last();
    let half = body.update(i, body[j]);
    let both = half.update(j, body[i]);
    assert(swapped(route, i, j).drop_last() =~= both);
    vstd::seq_lib::to_multiset_update(body, i, body[j]);
    vstd::seq_lib::to_multiset_update(half, j, body[i]);
    assert(body.to_multiset().count(body[i]) > 0);
    assert(body.to_multiset().count(body[j]) > 0);
    assert(both.to_multiset() =~= body.to_multiset());
}

/// Putting a stretch of a closed tour in reverse order gives a closed tour.
pub proof fn lemma_reversal_keeps_tour(g: GraphView, route: Seq<usize>, i: int, j: int)
    requires
        is_closed_tour(g, route),
        0 <= i < j < route.len() - 1,
    ensures
        is_closed_tour(g, reversed(route, i, j)),
{
    broadcast use vstd::multiset::group_multiset_axioms;

    let body = route.drop_last();
    let head = body.subrange(0, i);
    let stretch = body.subrange(i, j + 1);
    let tail = body.subrange(j + 1, body.len() as int);
    let turned = reversed(route, i, j).drop_last();
    assert(body =~= head + stretch + tail);
    assert(turned =~= head + stretch.reverse() + tail);
    stretch.lemma_reverse_to_multiset();
    lemma_multiset_commutative(head, stretch);
    lemma_multiset_commutative(head + stretch, tail);
    lemma_multiset_commutative(head, stretch.reverse());
    lemma_multiset_commutative(head + stretch.reverse(), tail);
}

/// Whatever follows a closed tour in the search is a closed tour.
pub proof fn lemma_perturbation_keeps_tour(g: GraphView, route: Seq<usize>, next: Seq<usize>)
    requires
        is_closed_tour(g, route),
        is_perturbation(g, route, next),
    ensures
        is_closed_tour(g, next),
{
    if is_exchange_of(g, route, next) {
        let (i, j) = choose|i: int, j: int|
            0 <= i < route.len() - 1 && 0 <= j < route.len() - 1 && i != j && swap_valid(
                g,
                route,
                i,
                j,
            ) && next == #[trigger] swapped(route, i, j);
        lemma_swap_keeps_tour(g, route, i, j);
    } else if is_reversal_of(g, route, next) {
        let (i, j) = choose|i: int, j: int|
            0 <= i < j < route.len() - 1 && reversal_valid(g, route, i, j) && next
                == #[trigger] reversed(route, i, j);
        lemma_reversal_keeps_tour(g, route, i, j);
    }
}

/// An exchange that passed the test keeps every step of a closed tour on an
/// edge, if every step was on an edge before.
pub proof fn lemma_swap_keeps_feasible(g: GraphView, route: Seq<usize>, i: int, j: int)
    requires
        is_closed_tour(g, route),
        is_feasible(g, route),
        0 <= i < route.len() - 1,
        0 <= j < route.len() - 1,
        swap_valid(g, route, i, j),
    ensures
        is_feasible(g, swapped(route, i, j)),
{
    let len = route.len() as int;
    let next = swapped(route, i, j);
    assert forall|k: int| 0 <= k < next.len() - 1 implies #[trigger] joined(g, next, k) by {
        assert(joined(g, route, k));
        assert(next[len - 1] == next[0]);
        if k == i || k == j {
            assert(next[k + 1] == next[after(len, k)]);
        } else if k == before(len, i) {
            assert(next[k + 1] == next[i]);
        } else if k == before(len, j) {
            assert(next[k + 1] == next[j]);
        }
    }
}

/// A reversal that passed the test keeps every step of a closed tour on an
/// edge, if every step was on an edge before: the steps inside the stretch
/// are walked the other way, and the steps at its ends were tested.
pub proof fn lemma_reversal_keeps_feasible(g: GraphView, route: Seq<usize>, i: int, j: int)
    requires
        g.wf(),
        is_closed_tour(g, route),
        is_feasible(g, route),
        0 <= i < j < route.len() - 1,
        reversal_valid(g, route, i, j),
    ensures
        is_feasible(g, reversed(route, i, j)),
{
    let len = route.len() as int;
    let next = reversed(route, i, j);
    assert forall|k: int| 0 <= k < next.len() - 1 implies #[trigger] joined(g, next, k) by {
        assert(next[len - 1] == next[0]);
        if i <= k < j {
            let m = i + j - k - 1;
            assert(joined(g, route, m));
            assert(next[k] == route[m + 1]);
            assert(next[k + 1] == route[m]);
            assert(g.adjacent(route[m] as int, route[m + 1] as int));
        } else if k == j {
            assert(next[k + 1] == next[after(len, k)]);
        } else if k == before(len, i) {
            assert(next[k + 1] == next[i]);
        } else {
            assert(joined(g, route, k));
        }
    }
}

/// Whatever follows a closed tour in the search has every step on an edge,
/// if the tour had.
pub proof fn lemma_perturbation_keeps_feasible(g: GraphView, route: Seq<usize>, next: Seq<usize>)
    requires
        g.wf(),
        is_closed_tour(g, route),
        is_feasible(g, route),
        is_perturbation(g, route, next),
    ensures
        is_feasible(g, next),
{
    if is_exchange_of(g, route, next) {
        let (i, j) = choose|i: int, j: int|
            0 <= i < route.len() - 1 && 0 <= j < route.len() - 1 && i != j && swap_valid(
                g,
                route,
                i,
                j,
            ) && next == #[trigger] swapped(route, i, j);
        lemma_swap_keeps_feasible(g, route, i, j);
    } else if is_reversal_of(g, route, next) {
        let (i, j) = choose|i: int, j: int|
            0 <= i < j < route.len() - 1 && reversal_valid(g, route, i, j) && next
                == #[trigger] reversed(route, i, j);
        lemma_reversal_keeps_feasible(g, route, i, j);
    }
}

/// Where an edge joins every two different positions and there are at least
/// two, every step of a closed tour is on an edge.
pub proof fn lemma_complete_graph_tours_are_feasible(g: GraphView, route: Seq<usize>)
    requires
        g.nodes.len() <= usize::MAX,
        g.nodes.len() >= 2,
        is_complete(g),
        is_closed_tour(g, route),
    ensures
        is_feasible(g, route),
{
    lemma_tour_visits_each_once(g, route);
    let n = g.nodes.len() as int;
    let body = route.drop_last();
    assert forall|k: int| 0 <= k < route.len() - 1 implies #[trigger] joined(g, route, k) by {
        let m = if k == n - 1 { 0 } else { k + 1 };
        assert(route[k + 1] == body[m]);
        assert(route[k] == body[k]);
        assert(body[k] != body[m]);
        assert(g.adjacent(route[k] as int, route[k + 1] as int));
    }
}

} // verus!
