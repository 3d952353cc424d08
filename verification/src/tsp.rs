//! Short closed tours by simulated annealing.
//!
//! One run of the search starts on a tour drawn at random and changes it
//! step by step; several runs are made side by side and the best result is
//! kept.

use crate::graph::{joined, Graph, GraphView};
use crate::random::{random_below, shuffle, thread_rng};
use crate::tour::{
    every_exchange_passes, every_order_closes, every_reversal_passes, is_closed_tour, is_complete,
    is_exchange_of, is_feasible, is_perturbation, is_reversal_of,
    lemma_complete_graph_tours_are_feasible, lemma_perturbation_keeps_feasible,
    lemma_perturbation_keeps_tour, lemma_tour_visits_each_once, natural_order,
    no_exchange_passes, reversal_valid, reversed, steps_hold_around, swap_valid, swapped,
};
use vstd::prelude::*;

verus! {

broadcast use vstd::seq_lib::group_to_multiset_ensures;

/// How often a pair of entries is drawn for an exchange, and how often for a
/// reversal, before that kind of change is given up.
pub const MAX_TRIES: usize = 100;

/// How often a visiting order is drawn before the search for a first tour is
/// given up.
pub const MAX_SHUFFLES: usize = 100000;

/// The greatest number of steps of one search.
pub const MAX_ITERATIONS: usize = 100000;

/// The cost of a route: the sum of the weights of its steps, a step between
/// two positions that no edge joins counting nothing.
pub fn distance(route: &Vec<usize>, g: &Graph) -> (total: u128)
    ensures
        total == g@.route_cost(route@),
{
    let mut total: u128 = 0;
    if route.len() == 0 {
        return total;
    }
    let mut k: usize = 0;
    assert(route@.take(1).drop_last().len() == 0);
    while k < route.len() - 1
        invariant
            route.len() > 0,
            k <= route.len() - 1,
            total == g@.route_cost(route@.take(k + 1)),
            total <= k * 0xffff_ffff,
        decreases route.len() - k,
    {
        let step = match g.weight(route[k], route[k + 1]) {
            Some(w) => w,
            None => 0,
        };
        proof {
            assert(route@.take(k + 2).drop_last() =~= route@.take(k + 1));
            assert(k * 0xffff_ffff + 0xffff_ffff <= u128::MAX) by (nonlinear_arith)
                requires
                    k <= 0xffff_ffff_ffff_ffff,
            ;
            assert(k * 0xffff_ffff + 0xffff_ffff == (k + 1) * 0xffff_ffff) by (nonlinear_arith);
        }
        total = total + step as u128;
        k += 1;
    }
    assert(route@.take(k + 1) =~= route@);
    total
}

/// Whether the steps to and from the entries at `i` and `j` of a closed
/// route go along edges.
pub fn is_valid_around(route: &Vec<usize>, g: &Graph, i: usize, j: usize) -> (valid: bool)
    requires
        i < route.len() - 1,
        j < route.len() - 1,
    ensures
        valid == steps_hold_around(g@, route@, i as int, j as int),
{
    let len = route.len();
    let before_i = if i == 0 { len - 2 } else { i - 1 };
    let after_i = if i == len - 2 { 0 } else { i + 1 };
    let before_j = if j == 0 { len - 2 } else { j - 1 };
    let after_j = if j == len - 2 { 0 } else { j + 1 };
    g.weight(route[before_i], route[i]).is_some() && g.weight(route[i], route[after_i]).is_some()
        && g.weight(route[before_j], route[j]).is_some() && g.weight(
        route[j],
        route[after_j],
    ).is_some()
}

/// The entry at index `k` once the entries at `i` and `j` are exchanged.
fn entry_after_swap(route: &Vec<usize>, i: usize, j: usize, k: usize) -> (entry: usize)
    requires
        i < route.len() - 1,
        j < route.len() - 1,
        k < route.len() - 1,
    ensures
        entry == swapped(route@, i as int, j as int)[k as int],
{
    if k == j {
        route[i]
    } else if k == i {
        route[j]
    } else {
        route[k]
    }
}

/// Whether the entries at `i` and `j` of a closed route may be exchanged.
pub fn is_swap_valid(route: &Vec<usize>, g: &Graph, i: usize, j: usize) -> (valid: bool)
    requires
        i < route.len() - 1,
        j < route.len() - 1,
    ensures
        valid == swap_valid(g@, route@, i as int, j as int),
{
    let len = route.len();
    let before_i = if i == 0 { len - 2 } else { i - 1 };
    let after_i = if i == len - 2 { 0 } else { i + 1 };
    let before_j = if j == 0 { len - 2 } else { j - 1 };
    let after_j = if j == len - 2 { 0 } else { j + 1 };
    let at_i = entry_after_swap(route, i, j, i);
    let at_j = entry_after_swap(route, i, j, j);
    g.weight(entry_after_swap(route, i, j, before_i), at_i).is_some() && g.weight(
        at_i,
        entry_after_swap(route, i, j, after_i),
    ).is_some() && g.weight(entry_after_swap(route, i, j, before_j), at_j).is_some() && g.weight(
        at_j,
        entry_after_swap(route, i, j, after_j),
    ).is_some()
}

/// The route after the entries at `i` and `j` were exchanged, if they may be.
pub fn try_swap(route: &Vec<usize>, g: &Graph, i: usize, j: usize) -> (next: Option<Vec<usize>>)
    requires
        i < route.len() - 1,
        j < route.len() - 1,
    ensures
        match next {
            Some(changed) => swap_valid(g@, route@, i as int, j as int) && changed@ == swapped(
                route@,
                i as int,
                j as int,
            ),
            None => !swap_valid(g@, route@, i as int, j as int),
        },
{
    if !is_swap_valid(route, g, i, j) {
        return None;
    }
    let mut changed = route.clone();
    let at_i = route[i];
    let at_j = route[j];
    changed.set(i, at_j);
    changed.set(j, at_i);
    let first = changed[0];
    let last = changed.len() - 1;
    changed.set(last, first);
    Some(changed)
}

/// The route after the entries from `i` to `j` were put in reverse order, if
/// they may be.
pub fn try_reversal(route: &Vec<usize>, g: &Graph, i: usize, j: usize) -> (next: Option<
    Vec<usize>,
>)
    requires
        i < j < route.len() - 1,
    ensures
        match next {
            Some(changed) => reversal_valid(g@, route@, i as int, j as int) && changed@
                == reversed(route@, i as int, j as int),
            None => !reversal_valid(g@, route@, i as int, j as int),
        },
{
    let len = route.len();
    let mut changed: Vec<usize> = Vec::new();
    let mut k: usize = 0;
    while k < len - 1
        invariant
            len == route.len(),
            i < j < len - 1,
            k <= len - 1,
            changed.len() == k,
            forall|m: int|
                0 <= m < k ==> changed[m] == (if i <= m <= j {
                    route[i + j - m]
                } else {
                    route[m]
                }),
        decreases len - k,
    {
        let entry = if i <= k && k <= j { route[j - (k - i)] } else { route[k] };
        changed.push(entry);
        k += 1;
    }
    let first = changed[0];
    changed.push(first);
    assert(changed@ =~= reversed(route@, i as int, j as int));
    if is_valid_around(&changed, g, i, j) {
        Some(changed)
    } else {
        None
    }
}

/// The visiting order with its first position once more at the end, if an
/// edge leads from the last position of the order back to the first. No
/// other step of the order is looked at.
pub fn close_route(order: &Vec<usize>, g: &Graph) -> (closed: Option<Vec<usize>>)
    ensures
        match closed {
            Some(route) => {
                &&& order.len() > 0
                &&& g@.adjacent(order[order.len() - 1] as int, order[0] as int)
                &&& route@ == order@.push(order[0])
            },
            None => order.len() == 0 || !g@.adjacent(
                order[order.len() - 1] as int,
                order[0] as int,
            ),
        },
{
    if order.len() == 0 {
        return None;
    }
    if g.weight(order[order.len() - 1], order[0]).is_some() {
        let mut route = order.clone();
        route.push(order[0]);
        Some(route)
    } else {
        None
    }
}

/// A visiting order of all positions that was closed with its first position
/// is a closed tour, and its entries are positions of the graph.
proof fn lemma_closed_order_is_tour(g: GraphView, order: Seq<usize>)
    requires
        0 < g.nodes.len() <= usize::MAX,
        order.to_multiset() == natural_order(g.nodes.len()).to_multiset(),
    ensures
        order.len() == g.nodes.len(),
        is_closed_tour(g, order.push(order[0])),
        order.no_duplicates(),
        forall|k: int| 0 <= k < order.len() ==> (#[trigger] order[k]) < g.nodes.len(),
{
    let route = order.push(order[0]);
    assert(order.len() == order.to_multiset().len());
    assert(natural_order(g.nodes.len()).len() == natural_order(g.nodes.len()).to_multiset().len());
    assert(route.drop_last() =~= order);
    lemma_tour_visits_each_once(g, route);
    assert forall|k: int| 0 <= k < order.len() implies (#[trigger] order[k]) < g.nodes.len() by {
        assert(order[k] == route[k]);
    }
}

/// A first tour for the search: the positions of the graph in an order drawn
/// at random, closed with the first of them. Orders are drawn until one has
/// an edge from its last position back to its first, [`MAX_SHUFFLES`] times
/// at most; the other steps of the order are not looked at.
///
/// Where every order can be closed the first one drawn is taken. A graph
/// without locations has no tour.
pub fn get_random_route(g: &Graph) -> (start: Option<Vec<usize>>)
    ensures
        start matches Some(route) ==> is_closed_tour(g@, route@) && joined(
            g@,
            route@,
            route.len() - 2,
        ),
        every_order_closes(g@) ==> start is Some,
{
    let n = g.len();
    if n == 0 {
        return None;
    }
    let mut order: Vec<usize> = Vec::new();
    let mut k: usize = 0;
    while k < n
        invariant
            k <= n,
            order@ =~= natural_order(k as nat),
        decreases n - k,
    {
        order.push(k);
        k += 1;
    }
    let mut rng = thread_rng();
    let mut attempt: usize = 0;
    while attempt < MAX_SHUFFLES
        invariant
            n == g@.nodes.len(),
            n > 0,
            g@.wf(),
            order@.to_multiset() == natural_order(n as nat).to_multiset(),
            every_order_closes(g@) ==> attempt == 0,
        decreases MAX_SHUFFLES - attempt,
    {
        shuffle(&mut rng, &mut order);
        proof {
            lemma_closed_order_is_tour(g@, order@);
        }
        match close_route(&order, g) {
            Some(route) => {
                return Some(route);
            },
            None => {},
        }
        attempt += 1;
    }
    None
}

/// An index that differs from `first`, from a number drawn: a number below
/// `first` stands for itself, any other for the index one higher. So a
/// number drawn evenly below `count - 1` gives each index below `count` but
/// `first` with the same chance.
pub fn other_index(first: usize, drawn: usize) -> (second: usize)
    requires
        drawn < usize::MAX,
    ensures
        second != first,
        second == (if drawn >= first {
            drawn + 1
        } else {
            drawn as int
        }),
{
    if drawn >= first {
        drawn + 1
    } else {
        drawn
    }
}

/// A tour to try next after `route`.
///
/// Up to [`MAX_TRIES`] times two different entries are drawn at random, the
/// repeated last entry excepted, and the first pair that passes the test for
/// an exchange is exchanged. If none did, up to [`MAX_TRIES`] times a stretch
/// of at least two entries is drawn and put in reverse order, if it passes
/// the test for a reversal. If none did either, the route comes back as it
/// is; so does a route too short to draw from.
///
/// Where every exchange passes, the first pair drawn is exchanged; where
/// none passes and every reversal does, the first stretch drawn is reversed.
pub fn get_route_perturbation(route: &Vec<usize>, g: &Graph) -> (next: Vec<usize>)
    ensures
        is_perturbation(g@, route@, next@),
        every_exchange_passes(g@, route@) ==> is_exchange_of(g@, route@, next@),
        no_exchange_passes(g@, route@) && every_reversal_passes(g@, route@) ==> is_reversal_of(
            g@,
            route@,
            next@,
        ),
{
    let len = route.len();
    if len < 3 {
        return route.clone();
    }
    let mut rng = thread_rng();
    let mut tries: usize = 0;
    while tries < MAX_TRIES
        invariant
            len == route.len(),
            len >= 3,
            every_exchange_passes(g@, route@) ==> tries == 0,
        decreases MAX_TRIES - tries,
    {
        let i = random_below(&mut rng, 0, len - 1);
        let drawn = random_below(&mut rng, 0, len - 2);
        let j = other_index(i, drawn);
        match try_swap(route, g, i, j) {
            Some(changed) => {
                assert(changed@ == swapped(route@, i as int, j as int));
                return changed;
            },
            None => {},
        }
        tries += 1;
    }
    tries = 0;
    while tries < MAX_TRIES
        invariant
            len == route.len(),
            len >= 3,
            !every_exchange_passes(g@, route@),
            every_reversal_passes(g@, route@) ==> tries == 0,
        decreases MAX_TRIES - tries,
    {
        let i = random_below(&mut rng, 0, len - 2);
        let j = random_below(&mut rng, i + 1, len - 1);
        match try_reversal(route, g, i, j) {
            Some(changed) => {
                assert(changed@ == reversed(route@, i as int, j as int));
                return changed;
            },
            None => {},
        }
        tries += 1;
    }
    route.clone()
}

/// What a search knows at a moment: the graph, the tour it stands on, the
/// best tour it has stood on, the tour that is proposed as the next one, and
/// the number of steps taken.
pub struct SearchState {
    pub graph: GraphView,
    pub current: Seq<usize>,
    pub best: Seq<usize>,
    pub candidate: Seq<usize>,
    pub iteration: nat,
}

impl SearchState {
    /// The cost of the tour that the search stands on.
    pub open spec fn current_cost(self) -> nat {
        self.graph.route_cost(self.current)
    }

    /// The cost of the best tour so far.
    pub open spec fn best_cost(self) -> nat {
        self.graph.route_cost(self.best)
    }

    /// The cost of the proposed tour.
    pub open spec fn candidate_cost(self) -> nat {
        self.graph.route_cost(self.candidate)
    }

    /// All three tours are closed tours of the graph, the best tour costs no
    /// more than the current one, and the steps are within their limit.
    pub open spec fn wf(self) -> bool {
        &&& self.graph.wf()
        &&& self.graph.nodes.len() <= usize::MAX
        &&& is_closed_tour(self.graph, self.current)
        &&& is_closed_tour(self.graph, self.best)
        &&& is_closed_tour(self.graph, self.candidate)
        &&& self.best_cost() <= self.current_cost()
        &&& self.iteration <= MAX_ITERATIONS
    }

    /// Whether the proposed tour is taken: always when it is cheaper than
    /// the current one, else only if the draw allows it.
    pub open spec fn accepts(self, take_worse: bool) -> bool {
        self.candidate_cost() < self.current_cost() || take_worse
    }

    /// The state after the proposed tour was decided on. A tour that is taken
    /// becomes the current one, and the best one too if it is cheaper than
    /// the best so far. Taken or not, one step is counted. Once the limit of
    /// steps is reached nothing changes any more.
    pub open spec fn decided(self, take_worse: bool) -> SearchState {
        if self.iteration >= MAX_ITERATIONS {
            self
        } else if self.accepts(take_worse) {
            SearchState {
                graph: self.graph,
                current: self.candidate,
                best: if self.candidate_cost() < self.best_cost() {
                    self.candidate
                } else {
                    self.best
                },
                candidate: self.candidate,
                iteration: self.iteration + 1,
            }
        } else {
            SearchState { iteration: self.iteration + 1, ..self }
        }
    }
}

/// Deciding on a proposal keeps the state in order and never makes the best
/// tour dearer: the best cost only falls, and it is at most the current cost
/// after every step.
pub proof fn lemma_best_never_rises(state: SearchState, take_worse: bool)
    requires
        state.wf(),
    ensures
        state.decided(take_worse).wf(),
        state.decided(take_worse).best_cost() <= state.best_cost(),
        state.decided(take_worse).best_cost() <= state.decided(take_worse).current_cost(),
        state.iteration <= state.decided(take_worse).iteration <= MAX_ITERATIONS,
{
}

/// The state with `candidate` as the proposed tour.
pub open spec fn proposed(state: SearchState, candidate: Seq<usize>) -> SearchState {
    SearchState { candidate, ..state }
}

/// Whether `after` follows `before` by one step of a run: a tour made from
/// the current one is proposed, and decided on.
pub open spec fn is_step(before: SearchState, after: SearchState) -> bool {
    exists|candidate: Seq<usize>, take_worse: bool|
        is_perturbation(before.graph, before.current, candidate) && after == #[trigger] proposed(
            before,
            candidate,
        ).decided(take_worse)
}

/// Whether the state at index `i` is followed by the next one by one step.
pub open spec fn step_at(states: Seq<SearchState>, i: int) -> bool {
    is_step(states[i], states[i + 1])
}

/// The states that a run passes through, from a first state that is in
/// order, one step after the other.
pub open spec fn is_run(states: Seq<SearchState>) -> bool {
    &&& states.len() > 0
    &&& states[0].wf()
    &&& forall|i: int| 0 <= i < states.len() - 1 ==> #[trigger] step_at(states, i)
}

/// One step of a run leads from a state in order to a state in order, makes
/// the best tour no dearer and counts at most one step.
pub proof fn lemma_step(before: SearchState, after: SearchState)
    requires
        before.wf(),
        is_step(before, after),
    ensures
        after.wf(),
        after.graph == before.graph,
        after.best_cost() <= before.best_cost(),
        before.iteration < MAX_ITERATIONS ==> after.iteration == before.iteration + 1,
        before.iteration >= MAX_ITERATIONS ==> after.iteration == before.iteration,
{
    let (candidate, take_worse) = choose|candidate: Seq<usize>, take_worse: bool|
        is_perturbation(before.graph, before.current, candidate) && after == #[trigger] proposed(
            before,
            candidate,
        ).decided(take_worse);
    lemma_perturbation_keeps_tour(before.graph, before.current, candidate);
    lemma_best_never_rises(proposed(before, candidate), take_worse);
}

/// At every moment of a run the tours are closed tours of the graph and the
/// best tour costs no more than the current one.
pub proof fn lemma_run_stays_in_order(states: Seq<SearchState>, i: int)
    requires
        is_run(states),
        0 <= i < states.len(),
    ensures
        states[i].wf(),
        states[i].graph == states[0].graph,
        is_closed_tour(states[i].graph, states[i].current),
        is_closed_tour(states[i].graph, states[i].best),
        states[i].best_cost() <= states[i].current_cost(),
    decreases i,
{
    if i > 0 {
        lemma_run_stays_in_order(states, i - 1);
        assert(step_at(states, i - 1));
        lemma_step(states[i - 1], states[i]);
    }
}

/// In the course of a run the cost of the best tour never rises.
pub proof fn lemma_run_best_never_rises(states: Seq<SearchState>, i: int, j: int)
    requires
        is_run(states),
        0 <= i <= j < states.len(),
    ensures
        states[j].best_cost() <= states[i].best_cost(),
    decreases j - i,
{
    if i < j {
        lemma_run_best_never_rises(states, i, j - 1);
        lemma_run_stays_in_order(states, j - 1);
        assert(step_at(states, j - 1));
        lemma_step(states[j - 1], states[j]);
    }
}

/// If every step of the first current tour and of the first best tour of a
/// run is on an edge, so is every step of the current tour and of the best
/// tour at every moment of the run.
pub proof fn lemma_run_stays_feasible(states: Seq<SearchState>, i: int)
    requires
        is_run(states),
        0 <= i < states.len(),
        is_feasible(states[0].graph, states[0].current),
        is_feasible(states[0].graph, states[0].best),
    ensures
        is_feasible(states[i].graph, states[i].current),
        is_feasible(states[i].graph, states[i].best),
    decreases i,
{
    if i > 0 {
        lemma_run_stays_feasible(states, i - 1);
        lemma_run_stays_in_order(states, i - 1);
        assert(step_at(states, i - 1));
        let before = states[i - 1];
        let (candidate, take_worse) = choose|candidate: Seq<usize>, take_worse: bool|
            is_perturbation(before.graph, before.current, candidate) && states[i]
                == #[trigger] proposed(before, candidate).decided(take_worse);
        lemma_perturbation_keeps_feasible(before.graph, before.current, candidate);
    }
}

/// On a graph of at least two locations in which an edge joins every two of
/// them, every step of the current tour and of the best tour is on an edge
/// at every moment of a run.
pub proof fn lemma_run_on_complete_graph_is_feasible(states: Seq<SearchState>, i: int)
    requires
        is_run(states),
        0 <= i < states.len(),
        is_complete(states[0].graph),
        states[0].graph.nodes.len() >= 2,
    ensures
        is_feasible(states[i].graph, states[i].current),
        is_feasible(states[i].graph, states[i].best),
{
    lemma_run_stays_in_order(states, i);
    lemma_complete_graph_tours_are_feasible(states[i].graph, states[i].current);
    lemma_complete_graph_tours_are_feasible(states[i].graph, states[i].best);
}

/// A run that takes a step only while the limit of steps is not reached
/// comes to an end: each step is counted, so after at most
/// [`MAX_ITERATIONS`] steps the limit is reached.
pub proof fn lemma_run_is_bounded(states: Seq<SearchState>, i: int)
    requires
        is_run(states),
        0 <= i < states.len(),
        forall|k: int| 0 <= k < i ==> (#[trigger] states[k]).iteration < MAX_ITERATIONS,
    ensures
        states[i].iteration == states[0].iteration + i,
        i <= MAX_ITERATIONS,
    decreases i,
{
    lemma_run_stays_in_order(states, i);
    if i > 0 {
        lemma_run_is_bounded(states, i - 1);
        lemma_run_stays_in_order(states, i - 1);
        assert(step_at(states, i - 1));
        lemma_step(states[i - 1], states[i]);
    }
}

/// One run of the search over a graph.
///
/// The run is driven from outside, one step at a time: [`propose`] puts a
/// tour forward, the caller draws whether a tour that is no improvement may
/// be taken all the same, and [`decide`] settles it.
///
/// [`propose`]: TourOptimizer::propose
/// [`decide`]: TourOptimizer::decide
pub struct TourOptimizer<'a> {
    graph: &'a Graph,
    current: (u128, Vec<usize>),
    best: (u128, Vec<usize>),
    next: (u128, Vec<usize>),
    iteration: usize,
}

impl<'a> View for TourOptimizer<'a> {
    type V = SearchState;

    closed spec fn view(&self) -> SearchState {
        SearchState {
            graph: self.graph@,
            current: self.current.1@,
            best: self.best.1@,
            candidate: self.next.1@,
            iteration: self.iteration as nat,
        }
    }
}

impl<'a> TourOptimizer<'a> {
    /// What holds of every run: its state is in order and each tour is kept
    /// with its cost.
    #[verifier::type_invariant]
    spec fn inv(self) -> bool {
        &&& self@.wf()
        &&& self.current.0 == self@.current_cost()
        &&& self.best.0 == self@.best_cost()
        &&& self.next.0 == self@.candidate_cost()
    }

    /// Begins a run on a first tour drawn at random, which is the current
    /// tour, the best tour and the proposed tour at once. There is no run
    /// where no first tour was found.
    pub fn start(graph: &'a Graph) -> (run: Option<TourOptimizer<'a>>)
        ensures
            run matches Some(r) ==> {
                &&& r@.wf()
                &&& r@.graph == graph@
                &&& r@.best == r@.current
                &&& r@.candidate == r@.current
                &&& r@.iteration == 0
                &&& joined(graph@, r@.current, r@.current.len() - 2)
            },
            every_order_closes(graph@) ==> run is Some,
    {
        if graph.len() == 0 {
            return None;
        }
        match get_random_route(graph) {
            Some(route) => {
                let cost = distance(&route, graph);
                Some(
                    TourOptimizer {
                        graph,
                        current: (cost, route.clone()),
                        best: (cost, route.clone()),
                        next: (cost, route),
                        iteration: 0,
                    },
                )
            },
            None => None,
        }
    }

    /// Puts forward a tour to try next, made from the current one: the
    /// current tour after an exchange where every exchange passes the test,
    /// with a stretch reversed where no exchange passes and every reversal
    /// does, and one of these or the current tour itself otherwise.
    pub fn propose(&mut self)
        ensures
            final(self)@.wf(),
            final(self)@ == proposed(old(self)@, final(self)@.candidate),
            is_perturbation(old(self)@.graph, old(self)@.current, final(self)@.candidate),
            every_exchange_passes(old(self)@.graph, old(self)@.current) ==> is_exchange_of(
                old(self)@.graph,
                old(self)@.current,
                final(self)@.candidate,
            ),
            no_exchange_passes(old(self)@.graph, old(self)@.current) && every_reversal_passes(
                old(self)@.graph,
                old(self)@.current,
            ) ==> is_reversal_of(old(self)@.graph, old(self)@.current, final(self)@.candidate),
    {
        proof {
            use_type_invariant(&*self);
        }
        let route = get_route_perturbation(&self.current.1, self.graph);
        let cost = distance(&route, self.graph);
        proof {
            lemma_perturbation_keeps_tour(self@.graph, self@.current, route@);
        }
        self.next = (cost, route);
    }

    /// Settles the proposed tour. It is taken if it is cheaper than the
    /// current tour, or if `take_worse` says that it may be taken all the
    /// same. Once [`MAX_ITERATIONS`] steps were taken nothing changes.
    pub fn decide(&mut self, take_worse: bool)
        ensures
            final(self)@ == old(self)@.decided(take_worse),
            final(self)@.wf(),
            final(self)@.best_cost() <= old(self)@.best_cost(),
            final(self)@.best_cost() <= final(self)@.current_cost(),
    {
        proof {
            use_type_invariant(&*self);
            lemma_best_never_rises(self@, take_worse);
        }
        if self.iteration >= MAX_ITERATIONS {
            return ;
        }
        if self.next.0 < self.current.0 || take_worse {
            if self.next.0 < self.best.0 {
                self.best = (self.next.0, self.next.1.clone());
            }
            self.current = (self.next.0, self.next.1.clone());
        }
        self.iteration = self.iteration + 1;
    }

    /// Whether the run goes on: it does while the caller's temperature is
    /// above its floor and fewer than [`MAX_ITERATIONS`] steps were taken.
    pub fn keeps_going(&self, still_hot: bool) -> (go: bool)
        ensures
            go == (still_hot && self@.iteration < MAX_ITERATIONS),
    {
        still_hot && self.iteration < MAX_ITERATIONS
    }

    /// The number of steps taken.
    pub fn iteration(&self) -> (steps: usize)
        ensures
            steps == self@.iteration,
            steps <= MAX_ITERATIONS,
    {
        proof {
            use_type_invariant(self);
        }
        self.iteration
    }

    /// The cost of the current tour.
    pub fn current_distance(&self) -> (cost: u128)
        ensures
            cost == self@.current_cost(),
    {
        proof {
            use_type_invariant(self);
        }
        self.current.0
    }

    /// The cost of the proposed tour.
    pub fn next_distance(&self) -> (cost: u128)
        ensures
            cost == self@.candidate_cost(),
    {
        proof {
            use_type_invariant(self);
        }
        self.next.0
    }

    /// The cost of the best tour so far.
    pub fn best_distance(&self) -> (cost: u128)
        ensures
            cost == self@.best_cost(),
            cost <= self@.current_cost(),
    {
        proof {
            use_type_invariant(self);
        }
        self.best.0
    }

    /// The current tour.
    pub fn current_route(&self) -> (route: &Vec<usize>)
        ensures
            route@ == self@.current,
            is_closed_tour(self@.graph, route@),
    {
        proof {
            use_type_invariant(self);
        }
        &self.current.1
    }

    /// The best tour so far.
    pub fn best_route(&self) -> (route: &Vec<usize>)
        ensures
            route@ == self@.best,
            is_closed_tour(self@.graph, route@),
    {
        proof {
            use_type_invariant(self);
        }
        &self.best.1
    }

    /// Ends the run and hands out its result: the cost of the best tour, and
    /// the best tour.
    pub fn into_best(self) -> (result: (u128, Vec<usize>))
        ensures
            result.1@ == self@.best,
            result.0 == self@.best_cost(),
            is_closed_tour(self@.graph, result.1@),
    {
        proof {
            use_type_invariant(&self);
        }
        self.best
    }
}

/// Whether `k` is the place of the first cheapest of the results.
pub open spec fn is_first_cheapest(results: Seq<(u128, Vec<usize>)>, k: int) -> bool {
    &&& 0 <= k < results.len()
    &&& forall|i: int| 0 <= i < results.len() ==> results[k].0 <= (#[trigger] results[i]).0
    &&& forall|i: int| 0 <= i < k ==> results[k].0 < (#[trigger] results[i]).0
}

/// The cheapest of the results of several runs; among equally cheap ones the
/// first. There is none where there is no result.
pub fn select_best(results: Vec<(u128, Vec<usize>)>) -> (chosen: Option<(u128, Vec<usize>)>)
    ensures
        match chosen {
            Some(best) => exists|k: int| #[trigger]
                is_first_cheapest(results@, k) && best == results[k],
            None => results.len() == 0,
        },
{
    if results.len() == 0 {
        return None;
    }
    let mut results = results;
    let ghost all = results@;
    let mut best: usize = 0;
    let mut i: usize = 1;
    while i < results.len()
        invariant
            results@ == all,
            1 <= i <= results.len(),
            best < i,
            forall|m: int| 0 <= m < i ==> all[best as int].0 <= (#[trigger] all[m]).0,
            forall|m: int| 0 <= m < best ==> all[best as int].0 < (#[trigger] all[m]).0,
        decreases results.len() - i,
    {
        if results[i].0 < results[best].0 {
            best = i;
        }
        i += 1;
    }
    assert(is_first_cheapest(all, best as int));
    let chosen = results.remove(best);
    Some(chosen)
}

} // verus!
