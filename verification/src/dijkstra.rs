//! Cheapest paths from one location to every other.

use crate::graph::{joined, Graph, GraphView};
use crate::location::Location;
use crate::queue::{Entry, MinQueue};
use vstd::set_lib::{lemma_int_range, lemma_len_subset, set_int_range};
use vstd::multiset::Multiset;
use vstd::prelude::*;

verus! {

broadcast use vstd::std_specs::hash::group_hash_axioms;

/// What the table says of one destination.
pub struct DijkstraTableRow {
    /// The cost of the cheapest path to the destination; `None` where no path
    /// leads there.
    pub cost: Option<u128>,
    /// The positions along one cheapest path, from the source to the
    /// destination; empty where no path leads there.
    pub path: Vec<usize>,
}

/// One row for each location of the graph, in the graph's order.
pub type DijkstraTable = Vec<DijkstraTableRow>;

/// A walk: at least one position of the graph, each joined to the next by an
/// edge.
pub open spec fn is_walk(g: GraphView, p: Seq<usize>) -> bool {
    &&& p.len() > 0
    &&& forall|k: int| 0 <= k < p.len() ==> (#[trigger] p[k]) < g.nodes.len()
    &&& forall|k: int| 0 <= k < p.len() - 1 ==> #[trigger] joined(g, p, k)
}

/// A walk from `s` to `t`.
pub open spec fn connects(g: GraphView, p: Seq<usize>, s: usize, t: usize) -> bool {
    &&& is_walk(g, p)
    &&& p[0] == s
    &&& p[p.len() - 1] == t
}

/// Whether some walk leads from `s` to `t`.
pub open spec fn reachable(g: GraphView, s: usize, t: usize) -> bool {
    exists|p: Seq<usize>| connects(g, p, s, t)
}

/// Whether `row` is right for the destination `t`, seen from the source `s`.
///
/// Where no walk leads to `t`, the row has no cost and an empty path.
/// Otherwise its path leads from `s` to `t`, passes no position twice and
/// costs what the row says, and no walk from `s` to `t` is cheaper.
pub open spec fn is_shortest(g: GraphView, s: usize, t: usize, row: DijkstraTableRow) -> bool {
    match row.cost {
        None => row.path@.len() == 0 && !reachable(g, s, t),
        Some(c) => {
            &&& connects(g, row.path@, s, t)
            &&& row.path@.no_duplicates()
            &&& g.route_cost(row.path@) == c
            &&& forall|q: Seq<usize>| #[trigger] connects(g, q, s, t) ==> c <= g.route_cost(q)
        },
    }
}

/// Whether `table` holds the right row for every destination.
pub open spec fn is_shortest_path_table(g: GraphView, s: usize, table: Seq<DijkstraTableRow>) -> bool {
    &&& table.len() == g.nodes.len()
    &&& forall|t: int| 0 <= t < table.len() ==> is_shortest(g, s, t as usize, #[trigger] table[t])
}

/// Costs that no edge can improve: the source costs nothing, and along every
/// edge the far end costs at most the near end and the edge together.
pub open spec fn settled(g: GraphView, s: usize, costs: Seq<Option<u128>>) -> bool {
    &&& costs.len() == g.nodes.len()
    &&& s < costs.len()
    &&& costs[s as int] == Some(0u128)
    &&& forall|u: int, v: int|
        0 <= u < costs.len() && costs[u] is Some && #[trigger] g.adjacent(u, v) ==> costs[v] is Some
            && costs[v]->0 <= costs[u]->0 + g.weights[(u, v)]
}

/// Walking one step further costs the step more.
pub proof fn lemma_route_cost_push(g: GraphView, p: Seq<usize>, v: usize)
    requires
        p.len() > 0,
    ensures
        g.route_cost(p.push(v)) == g.route_cost(p) + g.leg(p[p.len() - 1] as int, v as int),
{
    assert(p.push(v).drop_last() =~= p);
}

/// A route costs at most the greatest weight for each of its steps.
pub proof fn lemma_route_cost_bound(g: GraphView, p: Seq<usize>)
    ensures
        g.route_cost(p) <= p.len() * 0xffff_ffff,
    decreases p.len(),
{
    if p.len() > 1 {
        lemma_route_cost_bound(g, p.drop_last());
        assert(p.drop_last().len() * 0xffff_ffff + 0xffff_ffff == p.len() * 0xffff_ffff)
            by (nonlinear_arith)
            requires
                p.drop_last().len() + 1 == p.len(),
        ;
    } else {
        assert(0 <= p.len() * 0xffff_ffff) by (nonlinear_arith);
    }
}

/// A sequence that names no position twice is no longer than there are
/// positions.
pub proof fn lemma_no_duplicates_len(p: Seq<usize>, n: nat)
    requires
        p.no_duplicates(),
        forall|k: int| 0 <= k < p.len() ==> (#[trigger] p[k]) < n,
    ensures
        p.len() <= n,
    decreases n,
{
    if p.len() > 0 {
        if n == 0 {
            assert(p[0] < n);
        } else {
            let top = (n - 1) as usize;
            if p.contains(top) {
                let i = p.index_of(top);
                let rest = p.remove(i);
                assert forall|k: int| 0 <= k < rest.len() implies (#[trigger] rest[k]) < n - 1 by {
                    if k < i {
                        assert(rest[k] == p[k]);
                    } else {
                        assert(rest[k] == p[k + 1]);
                    }
                }
                assert(rest.no_duplicates());
                lemma_no_duplicates_len(rest, (n - 1) as nat);
            } else {
                assert forall|k: int| 0 <= k < p.len() implies (#[trigger] p[k]) < n - 1 by {
                    assert(p.contains(p[k]));
                }
                lemma_no_duplicates_len(p, (n - 1) as nat);
            }
        }
    }
}

/// Where no edge can improve the costs, every walk from the source costs at
/// least what is recorded for its end.
pub proof fn lemma_settled_is_lower_bound(
    g: GraphView,
    s: usize,
    costs: Seq<Option<u128>>,
    q: Seq<usize>,
    t: usize,
)
    requires
        g.wf(),
        settled(g, s, costs),
        connects(g, q, s, t),
    ensures
        costs[t as int] is Some,
        costs[t as int]->0 <= g.route_cost(q),
    decreases q.len(),
{
    if q.len() > 1 {
        let before = q.drop_last();
        let u = q[q.len() - 2];
        assert forall|k: int| 0 <= k < before.len() - 1 implies #[trigger] joined(g, before, k) by {
            assert(joined(g, q, k));
        }
        assert forall|k: int| 0 <= k < before.len() implies (#[trigger] before[k]) < g.nodes.len() by {
            assert(before[k] == q[k]);
        }
        lemma_settled_is_lower_bound(g, s, costs, before, u);
        assert(joined(g, q, q.len() - 2));
        assert(g.adjacent(u as int, t as int));
    }
}

/// What is left of a collection of entries after one was taken out.
proof fn lemma_entries_removed(m: Multiset<Entry>, e: Entry)
    requires
        m.contains(e),
    ensures
        m.remove(e).len() == m.len() - 1,
        forall|x: Entry| #[trigger] m.remove(e).contains(x) ==> m.contains(x),
        forall|x: Entry| #[trigger] m.contains(x) && x != e ==> m.remove(e).contains(x),
{
    broadcast use vstd::multiset::group_multiset_axioms;

}

/// What a collection of entries holds after one was added.
proof fn lemma_entries_inserted(m: Multiset<Entry>, e: Entry)
    ensures
        m.insert(e).len() == m.len() + 1,
        m.insert(e).contains(e),
        forall|x: Entry| #[trigger] m.contains(x) ==> m.insert(e).contains(x),
        forall|x: Entry| #[trigger] m.insert(e).contains(x) ==> x == e || m.contains(x),
{
    broadcast use vstd::multiset::group_multiset_axioms;

}

/// The cost recorded for position `x`.
spec fn cost_at(rows: Seq<DijkstraTableRow>, x: int) -> Option<u128> {
    rows[x].cost
}

/// The row of `x` is backed by its path: a walk from the source that costs
/// what the row says, passes no position twice and, before its end, only
/// positions that are finished. A position without a cost is not finished.
spec fn row_witnessed(
    g: GraphView,
    s: usize,
    rows: Seq<DijkstraTableRow>,
    visited: Seq<bool>,
    x: int,
) -> bool {
    match rows[x].cost {
        None => rows[x].path@.len() == 0 && !visited[x],
        Some(c) => {
            &&& connects(g, rows[x].path@, s, x as usize)
            &&& g.route_cost(rows[x].path@) == c
            &&& rows[x].path@.no_duplicates()
            &&& forall|k: int|
                0 <= k < rows[x].path@.len() - 1 ==> visited[(#[trigger] rows[x].path@[k]) as int]
        },
    }
}

/// No edge out of `u` can improve a recorded cost.
spec fn relaxed_from(g: GraphView, rows: Seq<DijkstraTableRow>, u: int) -> bool {
    forall|v: int| #[trigger]
        g.adjacent(u, v) ==> cost_at(rows, v) is Some && cost_at(rows, v)->0 <= cost_at(rows, u)->0
            + g.weights[(u, v)]
}

/// What holds between two steps of the search. While the edges of one
/// finished position are still being looked at, that position is `current`.
spec fn search_inv(
    g: GraphView,
    s: usize,
    rows: Seq<DijkstraTableRow>,
    visited: Seq<bool>,
    frontier: Multiset<Entry>,
    current: Option<usize>,
) -> bool {
    &&& g.wf()
    &&& rows.len() == g.nodes.len()
    &&& rows.len() <= usize::MAX
    &&& visited.len() == g.nodes.len()
    &&& s < rows.len()
    &&& rows[s as int].cost == Some(0u128)
    &&& rows[s as int].path@ == seq![s]
    &&& forall|x: int| 0 <= x < rows.len() ==> #[trigger] row_witnessed(g, s, rows, visited, x)
    &&& forall|u: int|
        0 <= u < rows.len() && visited[u] && current != Some(u as usize) ==> #[trigger] relaxed_from(
            g,
            rows,
            u,
        )
    &&& forall|e: Entry| #[trigger]
        frontier.contains(e) ==> e.1 < rows.len() && cost_at(rows, e.1 as int) is Some && cost_at(
            rows,
            e.1 as int,
        )->0 <= e.0
    &&& forall|e: Entry, u: int|
        #![trigger frontier.contains(e), visited[u]]
        frontier.contains(e) && 0 <= u < rows.len() && visited[u] ==> cost_at(rows, u)->0 <= e.0
    &&& forall|x: int|
        0 <= x < rows.len() && !(#[trigger] visited[x]) && cost_at(rows, x) is Some
            ==> frontier.contains((cost_at(rows, x)->0, x as usize))
}

/// The search may begin: only the source has a cost, and it waits alone.
proof fn lemma_search_starts(g: GraphView, s: usize, rows: Seq<DijkstraTableRow>, visited: Seq<bool>)
    requires
        g.wf(),
        rows.len() == g.nodes.len(),
        rows.len() <= usize::MAX,
        visited.len() == g.nodes.len(),
        s < rows.len(),
        rows[s as int].cost == Some(0u128),
        rows[s as int].path@ == seq![s],
        forall|x: int| 0 <= x < rows.len() && x != s ==> rows[x].cost is None && rows[x].path@.len() == 0,
        forall|x: int| 0 <= x < visited.len() ==> !visited[x],
    ensures
        search_inv(g, s, rows, visited, Multiset::<Entry>::empty().insert((0u128, s)), None),
{
    let frontier = Multiset::<Entry>::empty().insert((0u128, s));
    lemma_entries_inserted(Multiset::<Entry>::empty(), (0u128, s));
    assert forall|x: int| 0 <= x < rows.len() implies #[trigger] row_witnessed(g, s, rows, visited, x) by {
        if x == s {
            assert(rows[x].path@.drop_last().len() == 0);
        }
    }
    assert forall|e: Entry| #[trigger] frontier.contains(e) implies e == (0u128, s) by {
        assert(!Multiset::<Entry>::empty().contains(e));
    }
}

/// An entry that is out of date may be thrown away.
proof fn lemma_discard(
    g: GraphView,
    s: usize,
    rows: Seq<DijkstraTableRow>,
    visited: Seq<bool>,
    frontier: Multiset<Entry>,
    e: Entry,
)
    requires
        search_inv(g, s, rows, visited, frontier, None),
        frontier.contains(e),
        visited[e.1 as int] || e.0 > cost_at(rows, e.1 as int)->0,
    ensures
        search_inv(g, s, rows, visited, frontier.remove(e), None),
{
    lemma_entries_removed(frontier, e);
    let rest = frontier.remove(e);
    assert forall|x: int|
        0 <= x < rows.len() && !(#[trigger] visited[x]) && cost_at(rows, x) is Some implies rest.contains(
        (cost_at(rows, x)->0, x as usize),
    ) by {
        assert(frontier.contains((cost_at(rows, x)->0, x as usize)));
    }
}

/// Taking out a cheapest entry that is up to date finishes its position, and
/// nothing that is finished costs more than it.
proof fn lemma_visit(
    g: GraphView,
    s: usize,
    rows: Seq<DijkstraTableRow>,
    visited: Seq<bool>,
    frontier: Multiset<Entry>,
    e: Entry,
)
    requires
        search_inv(g, s, rows, visited, frontier, None),
        frontier.contains(e),
        forall|other: Entry| frontier.contains(other) ==> e.0 <= other.0,
        !visited[e.1 as int],
        e.0 <= cost_at(rows, e.1 as int)->0,
    ensures
        search_inv(g, s, rows, visited.update(e.1 as int, true), frontier.remove(e), Some(e.1)),
        cost_at(rows, e.1 as int) == Some(e.0),
        forall|u: int|
            0 <= u < rows.len() && #[trigger] visited.update(e.1 as int, true)[u] ==> cost_at(
                rows,
                u,
            )->0 <= e.0,
{
    lemma_entries_removed(frontier, e);
    let rest = frontier.remove(e);
    let seen = visited.update(e.1 as int, true);
    assert forall|x: int| 0 <= x < rows.len() implies #[trigger] row_witnessed(g, s, rows, seen, x) by {
        assert(row_witnessed(g, s, rows, visited, x));
    }
    assert forall|u: int|
        0 <= u < rows.len() && seen[u] && Some(e.1) != Some(u as usize) implies #[trigger] relaxed_from(
        g,
        rows,
        u,
    ) by {
        assert(visited[u]);
    }
    assert forall|u: int| 0 <= u < rows.len() && #[trigger] seen[u] implies cost_at(rows, u)->0
        <= e.0 by {
        if u != e.1 {
            assert(visited[u]);
        }
    }
    assert forall|x: int|
        0 <= x < rows.len() && !(#[trigger] seen[x]) && cost_at(rows, x) is Some implies rest.contains(
        (cost_at(rows, x)->0, x as usize),
    ) by {
        assert(!visited[x]);
        assert(frontier.contains((cost_at(rows, x)->0, x as usize)));
    }
    assert forall|o: Entry, u: int|
        #![trigger rest.contains(o), seen[u]]
        rest.contains(o) && 0 <= u < rows.len() && seen[u] implies cost_at(rows, u)->0 <= o.0 by {
        assert(frontier.contains(o));
    }
}

/// Recording a cheaper way to `v` through the current position `u`, and
/// letting `v` wait with its new cost, keeps the search in order.
proof fn lemma_improve(
    g: GraphView,
    s: usize,
    rows: Seq<DijkstraTableRow>,
    visited: Seq<bool>,
    frontier: Multiset<Entry>,
    u: usize,
    v: usize,
    row: DijkstraTableRow,
)
    requires
        search_inv(g, s, rows, visited, frontier, Some(u)),
        u < rows.len(),
        visited[u as int],
        cost_at(rows, u as int) is Some,
        forall|x: int| 0 <= x < rows.len() && #[trigger] visited[x] ==> cost_at(rows, x)->0 <= cost_at(rows, u as int)->0,
        g.adjacent(u as int, v as int),
        row.cost == Some((cost_at(rows, u as int)->0 + g.weights[(u as int, v as int)]) as u128),
        cost_at(rows, u as int)->0 + g.weights[(u as int, v as int)] <= u128::MAX,
        row.path@ == rows[u as int].path@.push(v),
        cost_at(rows, v as int) matches Some(old) ==> row.cost->0 < old,
    ensures
        !visited[v as int],
        search_inv(
            g,
            s,
            rows.update(v as int, row),
            visited,
            frontier.insert((row.cost->0, v)),
            Some(u),
        ),
{
    let c = cost_at(rows, u as int)->0;
    let w = g.weights[(u as int, v as int)];
    let entry = (row.cost->0, v);
    let after = rows.update(v as int, row);
    let more = frontier.insert(entry);
    lemma_entries_inserted(frontier, entry);
    assert(0 <= v < rows.len());
    // a finished position costs at most c, so its row is never improved
    if visited[v as int] {
        assert(row_witnessed(g, s, rows, visited, v as int));
        assert(cost_at(rows, v as int)->0 <= c);
    }
    assert(v != s);
    let through = rows[u as int].path@;
    assert(row_witnessed(g, s, rows, visited, u as int));
    assert(row_witnessed(g, s, after, visited, v as int)) by {
        let p = row.path@;
        lemma_route_cost_push(g, through, v);
        assert forall|k: int| 0 <= k < p.len() implies (#[trigger] p[k]) < g.nodes.len() by {
            if k < through.len() {
                assert(p[k] == through[k]);
            }
        }
        assert forall|k: int| 0 <= k < p.len() - 1 implies #[trigger] joined(g, p, k) by {
            if k < through.len() - 1 {
                assert(joined(g, through, k));
                assert(p[k] == through[k] && p[k + 1] == through[k + 1]);
            }
        }
        assert forall|k: int| 0 <= k < p.len() - 1 implies visited[(#[trigger] p[k]) as int] by {
            assert(p[k] == through[k]);
            if k < through.len() - 1 {
                assert(visited[through[k] as int]);
            }
        }
        assert forall|i: int, j: int| 0 <= i < p.len() && 0 <= j < p.len() && i != j implies p[i]
            != p[j] by {
            if i < through.len() && j < through.len() {
                assert(through[i] != through[j]);
            } else if i < through.len() {
                assert(visited[p[i] as int]);
            } else {
                assert(visited[p[j] as int]);
            }
        }
    }
    assert forall|x: int| 0 <= x < after.len() implies #[trigger] row_witnessed(g, s, after, visited, x) by {
        if x != v {
            assert(row_witnessed(g, s, rows, visited, x));
        }
    }
    assert forall|a: int|
        0 <= a < after.len() && visited[a] && Some(u) != Some(a as usize) implies #[trigger] relaxed_from(
        g,
        after,
        a,
    ) by {
        assert(relaxed_from(g, rows, a));
        assert forall|b: int| #[trigger] g.adjacent(a, b) implies cost_at(after, b) is Some && cost_at(
            after,
            b,
        )->0 <= cost_at(after, a)->0 + g.weights[(a, b)] by {
            assert(cost_at(rows, b) is Some);
        }
    }
    assert forall|e: Entry| #[trigger] more.contains(e) implies e.1 < after.len() && cost_at(
        after,
        e.1 as int,
    ) is Some && cost_at(after, e.1 as int)->0 <= e.0 by {
        if e != entry {
            assert(frontier.contains(e));
        }
    }
    assert forall|e: Entry, a: int|
        #![trigger more.contains(e), visited[a]]
        more.contains(e) && 0 <= a < after.len() && visited[a] implies cost_at(after, a)->0
            <= e.0 by {
        if e != entry {
            assert(frontier.contains(e));
        }
    }
    assert forall|x: int|
        0 <= x < after.len() && !(#[trigger] visited[x]) && cost_at(after, x) is Some implies more.contains(
        (cost_at(after, x)->0, x as usize),
    ) by {
        if x != v {
            assert(frontier.contains((cost_at(rows, x)->0, x as usize)));
        }
    }
}

/// Once every edge of the current position was looked at, the position is
/// done with.
proof fn lemma_finish(
    g: GraphView,
    s: usize,
    rows: Seq<DijkstraTableRow>,
    visited: Seq<bool>,
    frontier: Multiset<Entry>,
    u: usize,
)
    requires
        search_inv(g, s, rows, visited, frontier, Some(u)),
        relaxed_from(g, rows, u as int),
    ensures
        search_inv(g, s, rows, visited, frontier, None),
{
}

/// When nothing waits any more, the table is right.
proof fn lemma_search_ends(
    g: GraphView,
    s: usize,
    rows: Seq<DijkstraTableRow>,
    visited: Seq<bool>,
    frontier: Multiset<Entry>,
)
    requires
        search_inv(g, s, rows, visited, frontier, None),
        frontier.len() == 0,
    ensures
        is_shortest_path_table(g, s, rows),
{
    broadcast use vstd::multiset::group_multiset_axioms;

    let costs = Seq::new(rows.len(), |x: int| rows[x].cost);
    assert forall|x: int| 0 <= x < rows.len() && cost_at(rows, x) is Some implies visited[x] by {
        if !visited[x] {
            assert(frontier.contains((cost_at(rows, x)->0, x as usize)));
        }
    }
    assert forall|u: int, v: int|
        0 <= u < costs.len() && costs[u] is Some && #[trigger] g.adjacent(u, v) implies costs[v] is Some
        && costs[v]->0 <= costs[u]->0 + g.weights[(u, v)] by {
        assert(cost_at(rows, u) is Some);
        assert(relaxed_from(g, rows, u));
    }
    assert(settled(g, s, costs));
    assert forall|t: int| 0 <= t < rows.len() implies is_shortest(g, s, t as usize, #[trigger] rows[t]) by {
        assert(row_witnessed(g, s, rows, visited, t));
        assert forall|q: Seq<usize>| #[trigger] connects(g, q, s, t as usize) implies costs[t] is Some
            && costs[t]->0 <= g.route_cost(q) by {
            lemma_settled_is_lower_bound(g, s, costs, q, t as usize);
        }
    }
}

/// The cost of a recorded path and one more edge fits the cost type.
proof fn lemma_candidate_fits(
    g: GraphView,
    s: usize,
    rows: Seq<DijkstraTableRow>,
    visited: Seq<bool>,
    u: usize,
    w: u32,
)
    requires
        g.nodes.len() <= usize::MAX,
        rows.len() == g.nodes.len(),
        u < rows.len(),
        cost_at(rows, u as int) is Some,
        row_witnessed(g, s, rows, visited, u as int),
    ensures
        cost_at(rows, u as int)->0 + w <= u128::MAX,
{
    let p = rows[u as int].path@;
    lemma_no_duplicates_len(p, g.nodes.len());
    lemma_route_cost_bound(g, p);
    assert(p.len() * 0xffff_ffff + 0xffff_ffff <= u128::MAX) by (nonlinear_arith)
        requires
            p.len() <= 0xffff_ffff_ffff_ffff,
    ;
}

/// The cheapest path from the position `source` to every position of the
/// graph.
pub fn shortest_paths(g: &Graph, source: usize) -> (table: DijkstraTable)
    requires
        source < g@.nodes.len(),
    ensures
        is_shortest_path_table(g@, source, table@),
        table[source as int].cost == Some(0u128),
        table[source as int].path@ == seq![source],
{
    let n = g.len();
    let mut table: Vec<DijkstraTableRow> = Vec::new();
    let mut visited: Vec<bool> = Vec::new();
    let mut i: usize = 0;
    while i < n
        invariant
            i <= n,
            table.len() == i,
            visited.len() == i,
            forall|x: int| 0 <= x < i ==> table[x].cost is None && table[x].path@.len() == 0,
            forall|x: int| 0 <= x < i ==> !visited[x],
        decreases n - i,
    {
        table.push(DijkstraTableRow { cost: None, path: Vec::new() });
        visited.push(false);
        i += 1;
    }
    let mut first: Vec<usize> = Vec::new();
    first.push(source);
    table.set(source, DijkstraTableRow { cost: Some(0), path: first });
    let mut frontier = MinQueue::new();
    frontier.push(0, source);
    let ghost mut done: Set<int> = Set::empty();
    proof {
        assert(table[source as int].path@ =~= seq![source]);
        lemma_search_starts(g@, source, table@, visited@);
    }
    loop
        invariant
            n == g@.nodes.len(),
            source < n,
            table.len() == n,
            visited.len() == n,
            search_inv(g@, source, table@, visited@, frontier@, None),
            done.finite(),
            forall|x: int| done.contains(x) <==> (0 <= x < n && visited@[x]),
        ensures
            frontier@.len() == 0,
        decreases n - done.len(), frontier@.len(),
    {
        proof {
            lemma_int_range(0, n as int);
            assert(done.subset_of(set_int_range(0, n as int)));
            lemma_len_subset(done, set_int_range(0, n as int));
        }
        let ghost waiting = frontier@;
        match frontier.pop_min() {
            None => {
                break ;
            },
            Some(entry) => {
                let cost = entry.0;
                let u = entry.1;
                proof {
                    lemma_entries_removed(waiting, entry);
                }
                let fresh = !visited[u] && match table[u].cost {
                    Some(best) => cost <= best,
                    None => false,
                };
                if fresh {
                    proof {
                        lemma_visit(g@, source, table@, visited@, waiting, entry);
                        let more = done.insert(u as int);
                        lemma_int_range(0, n as int);
                        assert(more.subset_of(set_int_range(0, n as int)));
                        lemma_len_subset(more, set_int_range(0, n as int));
                        done = more;
                    }
                    visited.set(u, true);
                    let neighbors = g.neighbors(u);
                    for edge in it: neighbors.iter()
                        invariant
                            n == g@.nodes.len(),
                            u < n,
                            source < n,
                            table.len() == n,
                            visited.len() == n,
                            search_inv(g@, source, table@, visited@, frontier@, Some(u)),
                            visited@[u as int],
                            cost_at(table@, u as int) == Some(cost),
                            forall|x: int|
                                0 <= x < n && #[trigger] visited@[x] ==> cost_at(table@, x)->0
                                    <= cost,
                            forall|j: usize| #[trigger]
                                neighbors@.contains_key(j) <==> g@.adjacent(u as int, j as int),
                            forall|j: usize| #[trigger]
                                neighbors@.contains_key(j) ==> g@.weight(u as int, j as int)
                                    == Some(neighbors@[j]),
                            forall|i: int|
                                0 <= i < it.seq().len() ==> neighbors@.contains_key(
                                    *it.seq()[i].0,
                                ) && neighbors@[*it.seq()[i].0] == *it.seq()[i].1,
                            forall|k: usize|
                                neighbors@.contains_key(k) ==> exists|i: int|
                                    0 <= i < it.seq().len() && *(#[trigger] it.seq()[i]).0 == k,
                            forall|i: int|
                                0 <= i < it.index() ==> cost_at(
                                    table@,
                                    *(#[trigger] it.seq()[i]).0 as int,
                                ) is Some && cost_at(table@, *it.seq()[i].0 as int)->0 <= cost
                                    + *it.seq()[i].1,
                    {
                        let v = *edge.0;
                        let w = *edge.1;
                        proof {
                            assert(neighbors@.contains_key(v));
                            assert(g@.adjacent(u as int, v as int));
                            assert(row_witnessed(g@, source, table@, visited@, u as int));
                            lemma_candidate_fits(g@, source, table@, visited@, u, w);
                        }
                        let candidate = cost + w as u128;
                        let improves = match table[v].cost {
                            Some(best) => candidate < best,
                            None => true,
                        };
                        if improves {
                            let mut path = table[u].path.clone();
                            path.push(v);
                            let row = DijkstraTableRow { cost: Some(candidate), path };
                            proof {
                                lemma_improve(
                                    g@,
                                    source,
                                    table@,
                                    visited@,
                                    frontier@,
                                    u,
                                    v,
                                    row,
                                );
                            }
                            table.set(v, row);
                            frontier.push(candidate, v);
                        }
                    }
                    proof {
                        assert forall|v: int| #[trigger] g@.adjacent(u as int, v) implies cost_at(
                            table@,
                            v,
                        ) is Some && cost_at(table@, v)->0 <= cost_at(table@, u as int)->0
                            + g@.weights[(u as int, v)] by {
                            let key = v as usize;
                            assert(neighbors@.contains_key(key));
                        }
                        lemma_finish(g@, source, table@, visited@, frontier@, u);
                    }
                } else {
                    proof {
                        lemma_discard(g@, source, table@, visited@, waiting, entry);
                    }
                }
            },
        }
    }
    proof {
        lemma_search_ends(g@, source, table@, visited@, frontier@);
    }
    table
}

/// The cheapest path from `start` to every location of the graph, one row
/// for each location in the graph's order.
pub fn dijkstra(g: &Graph, start: &Location) -> (table: DijkstraTable)
    requires
        g@.nodes.contains(start@),
    ensures
        is_shortest_path_table(g@, g@.nodes.index_of(start@) as usize, table@),
        table[g@.nodes.index_of(start@)].cost == Some(0u128),
        table[g@.nodes.index_of(start@)].path@ == seq![g@.nodes.index_of(start@) as usize],
{
    match g.index_of(start) {
        Some(source) => shortest_paths(g, source),
        None => Vec::new(),
    }
}

} // verus!
