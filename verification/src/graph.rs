//! The road map: an undirected weighted graph over named locations.
//!
//! Every location is stored once, in the order in which it was first named,
//! and is referred to everywhere else by its position in that order.

use crate::distance::{distance_of, parse_distance};
use crate::location::{Location, LocationKey};
use std::collections::HashMap;
use vstd::prelude::*;

verus! {

broadcast use vstd::std_specs::hash::group_hash_axioms;

/// The mathematical content of a [`Graph`]: the locations in the order in
/// which they were first named, and the weight of the edge between two
/// positions of that order, where there is one.
pub struct GraphView {
    pub nodes: Seq<LocationKey>,
    pub weights: Map<(int, int), u32>,
}

impl GraphView {
    /// The graph without locations.
    pub open spec fn empty() -> GraphView {
        GraphView { nodes: Seq::empty(), weights: Map::empty() }
    }

    /// No location is stored twice, every edge joins two stored locations, and
    /// every edge is there in both directions with one weight.
    pub open spec fn wf(self) -> bool {
        &&& self.nodes.no_duplicates()
        &&& forall|i: int, j: int| #[trigger]
            self.weights.contains_key((i, j)) ==> {
                &&& 0 <= i < self.nodes.len()
                &&& 0 <= j < self.nodes.len()
                &&& self.weights.contains_key((j, i))
                &&& self.weights[(j, i)] == self.weights[(i, j)]
            }
    }

    /// The weight of the edge from position `i` to position `j`.
    pub open spec fn weight(self, i: int, j: int) -> Option<u32> {
        if self.weights.contains_key((i, j)) {
            Some(self.weights[(i, j)])
        } else {
            None
        }
    }

    /// Whether positions `i` and `j` are joined by an edge.
    pub open spec fn adjacent(self, i: int, j: int) -> bool {
        self.weights.contains_key((i, j))
    }

    /// What the step from position `i` to position `j` costs: the weight of
    /// the edge, and nothing where there is no edge.
    pub open spec fn leg(self, i: int, j: int) -> nat {
        match self.weight(i, j) {
            Some(w) => w as nat,
            None => 0,
        }
    }

    /// The cost of a route: the sum of its steps, each from one position of
    /// the route to the next.
    pub open spec fn route_cost(self, route: Seq<usize>) -> nat
        decreases route.len(),
    {
        if route.len() <= 1 {
            0
        } else {
            self.route_cost(route.drop_last()) + self.leg(
                route[route.len() - 2] as int,
                route[route.len() - 1] as int,
            )
        }
    }

    /// The weight of the edge between two locations given by key.
    pub open spec fn weight_between(self, a: LocationKey, b: LocationKey) -> Option<u32> {
        if self.nodes.contains(a) && self.nodes.contains(b) {
            self.weight(self.nodes.index_of(a), self.nodes.index_of(b))
        } else {
            None
        }
    }

    /// The graph with `key` stored: unchanged where it is there already, with
    /// `key` in a new last position where it is not.
    pub open spec fn with_node(self, key: LocationKey) -> GraphView {
        if self.nodes.contains(key) {
            self
        } else {
            GraphView { nodes: self.nodes.push(key), weights: self.weights }
        }
    }

    /// The graph after an edge of weight `w` was inserted between `a` and `b`:
    /// both are stored, `a` first, and the edge has weight `w` in both
    /// directions, whatever it had before.
    pub open spec fn connect(self, a: LocationKey, b: LocationKey, w: u32) -> GraphView {
        let stored = self.with_node(a).with_node(b);
        let i = stored.nodes.index_of(a);
        let j = stored.nodes.index_of(b);
        GraphView { nodes: stored.nodes, weights: stored.weights.insert((i, j), w).insert((j, i), w) }
    }
}

/// Whether an edge joins the position at index `k` of `p` to the next one.
pub open spec fn joined(g: GraphView, p: Seq<usize>, k: int) -> bool {
    g.adjacent(p[k] as int, p[k + 1] as int)
}

/// In a sequence without duplicates an element is found where it stands.
pub proof fn lemma_index_of_unique(s: Seq<LocationKey>, i: int)
    requires
        s.no_duplicates(),
        0 <= i < s.len(),
    ensures
        s.index_of(s[i]) == i,
        s.contains(s[i]),
{
    let j = s.index_of(s[i]);
    assert(0 <= j < s.len() && s[j] == s[i]);
}

/// Storing a location keeps a well-formed graph well-formed and moves no
/// location that was stored before.
pub proof fn lemma_with_node(g: GraphView, key: LocationKey)
    requires
        g.wf(),
    ensures
        g.with_node(key).wf(),
        g.with_node(key).nodes.contains(key),
        g.nodes.len() <= g.with_node(key).nodes.len() <= g.nodes.len() + 1,
        forall|i: int| 0 <= i < g.nodes.len() ==> g.with_node(key).nodes[i] == g.nodes[i],
        g.with_node(key).weights == g.weights,
{
    let h = g.with_node(key);
    if !g.nodes.contains(key) {
        assert(h.nodes[g.nodes.len() as int] == key);
        assert forall|i: int, j: int| 0 <= i < h.nodes.len() && 0 <= j < h.nodes.len() && i != j
            implies h.nodes[i] != h.nodes[j] by {
            if i < g.nodes.len() {
                assert(g.nodes.contains(g.nodes[i]));
            }
            if j < g.nodes.len() {
                assert(g.nodes.contains(g.nodes[j]));
            }
        }
    }
}

/// Inserting an edge keeps a well-formed graph well-formed.
pub proof fn lemma_connect_wf(g: GraphView, a: LocationKey, b: LocationKey, w: u32)
    requires
        g.wf(),
    ensures
        g.connect(a, b, w).wf(),
{
    lemma_with_node(g, a);
    let g1 = g.with_node(a);
    lemma_with_node(g1, b);
    let g2 = g1.with_node(b);
    assert(g1.nodes.contains(a));
    let ia = g1.nodes.index_of(a);
    assert(g2.nodes[ia] == a);
    assert(g2.nodes.contains(a));
    let i = g2.nodes.index_of(a);
    let j = g2.nodes.index_of(b);
    let h = g.connect(a, b, w);
    assert forall|x: int, y: int| #[trigger] h.weights.contains_key((x, y)) implies {
        &&& 0 <= x < h.nodes.len()
        &&& 0 <= y < h.nodes.len()
        &&& h.weights.contains_key((y, x))
        &&& h.weights[(y, x)] == h.weights[(x, y)]
    } by {
        if (x, y) != (i, j) && (x, y) != (j, i) {
            assert(g.weights.contains_key((x, y)));
            assert(g.weights.contains_key((y, x)));
        }
    }
}

/// A location that is stored stays where it is when an edge is inserted, and
/// both ends of the new edge are stored afterwards.
pub proof fn lemma_connect_nodes(g: GraphView, a: LocationKey, b: LocationKey, w: u32)
    requires
        g.wf(),
    ensures
        g.connect(a, b, w).nodes.contains(a),
        g.connect(a, b, w).nodes.contains(b),
        forall|i: int| 0 <= i < g.nodes.len() ==> g.connect(a, b, w).nodes[i] == g.nodes[i],
        forall|k: LocationKey| #[trigger]
            g.nodes.contains(k) ==> g.connect(a, b, w).nodes.contains(k) && g.connect(
                a,
                b,
                w,
            ).nodes.index_of(k) == g.nodes.index_of(k),
{
    lemma_with_node(g, a);
    let g1 = g.with_node(a);
    lemma_with_node(g1, b);
    let g2 = g1.with_node(b);
    assert(g1.nodes.contains(a));
    let ia = g1.nodes.index_of(a);
    assert(g2.nodes[ia] == a);
    assert forall|k: LocationKey| #[trigger] g.nodes.contains(k) implies g2.nodes.contains(k)
        && g2.nodes.index_of(k) == g.nodes.index_of(k) by {
        let i = g.nodes.index_of(k);
        assert(g2.nodes[i] == k);
        lemma_index_of_unique(g2.nodes, i);
    }
}

/// An edge that was just inserted is there in both directions with the
/// weight it was given.
pub proof fn lemma_connect_joins(g: GraphView, a: LocationKey, b: LocationKey, w: u32)
    requires
        g.wf(),
    ensures
        g.connect(a, b, w).weight_between(a, b) == Some(w),
        g.connect(a, b, w).weight_between(b, a) == Some(w),
{
    lemma_connect_nodes(g, a, b, w);
}

/// Inserting an edge changes the weight between two stored locations only if
/// it joins those two.
pub proof fn lemma_connect_keeps(
    g: GraphView,
    c: LocationKey,
    d: LocationKey,
    w: u32,
    a: LocationKey,
    b: LocationKey,
)
    requires
        g.wf(),
        g.nodes.contains(a),
        g.nodes.contains(b),
        !(c == a && d == b),
        !(c == b && d == a),
    ensures
        g.connect(c, d, w).weight_between(a, b) == g.weight_between(a, b),
{
    lemma_connect_nodes(g, c, d, w);
    lemma_connect_wf(g, c, d, w);
    let h = g.connect(c, d, w);
    let i = h.nodes.index_of(c);
    let j = h.nodes.index_of(d);
    let ia = g.nodes.index_of(a);
    let ib = g.nodes.index_of(b);
    assert(h.nodes[i] == c && h.nodes[j] == d);
    assert(h.nodes[ia] == a && h.nodes[ib] == b);
}

/// The weight between two locations does not depend on the direction.
pub proof fn lemma_symmetric(g: GraphView, a: LocationKey, b: LocationKey)
    requires
        g.wf(),
    ensures
        g.weight_between(a, b) == g.weight_between(b, a),
{
    if g.nodes.contains(a) && g.nodes.contains(b) {
        let i = g.nodes.index_of(a);
        let j = g.nodes.index_of(b);
        if g.weights.contains_key((i, j)) {
            assert(g.weights.contains_key((j, i)));
        }
        if g.weights.contains_key((j, i)) {
            assert(g.weights.contains_key((i, j)));
        }
    }
}

/// The characters of the fields of one record.
pub open spec fn record_text(record: Seq<String>) -> Seq<Seq<char>> {
    Seq::new(record.len(), |k: int| record[k]@)
}

/// The characters of the fields of every record.
pub open spec fn records_text(records: Seq<Vec<String>>) -> Seq<Seq<Seq<char>>> {
    Seq::new(records.len(), |i: int| record_text(records[i]@))
}

/// Whether a record of five fields gives an edge: its last field states a
/// distance.
pub open spec fn gives_edge(record: Seq<Seq<char>>) -> bool {
    distance_of(record[4]) is Some
}

/// The location that the first two fields of a record name.
pub open spec fn start_of(record: Seq<Seq<char>>) -> LocationKey {
    (record[0], record[1])
}

/// The location that the third and fourth field of a record name.
pub open spec fn end_of(record: Seq<Seq<char>>) -> LocationKey {
    (record[2], record[3])
}

/// The graph after one record of five fields: start city, start country, end
/// city, end country, distance. A record whose last field states no distance
/// changes nothing.
pub open spec fn absorb(g: GraphView, record: Seq<Seq<char>>) -> GraphView {
    match distance_of(record[4]) {
        Some(d) => g.connect(start_of(record), end_of(record), d),
        None => g,
    }
}

/// The graph that a sequence of records builds, taken in order from the empty
/// graph.
pub open spec fn build(records: Seq<Seq<Seq<char>>>) -> GraphView
    decreases records.len(),
{
    if records.len() == 0 {
        GraphView::empty()
    } else {
        absorb(build(records.drop_last()), records.last())
    }
}

/// Whether a record gives an edge between `a` and `b`, in either direction.
pub open spec fn joins(record: Seq<Seq<char>>, a: LocationKey, b: LocationKey) -> bool {
    gives_edge(record) && ((start_of(record) == a && end_of(record) == b) || (start_of(record)
        == b && end_of(record) == a))
}

/// Whatever the records, the graph they build is well-formed.
pub proof fn lemma_build_wf(records: Seq<Seq<Seq<char>>>)
    ensures
        build(records).wf(),
    decreases records.len(),
{
    if records.len() > 0 {
        lemma_build_wf(records.drop_last());
        let g = build(records.drop_last());
        let r = records.last();
        if let Some(d) = distance_of(r[4]) {
            lemma_connect_wf(g, start_of(r), end_of(r), d);
        }
    }
}

/// In the graph that the records build, the weight between two locations is
/// the same in both directions.
pub proof fn lemma_build_symmetric(records: Seq<Seq<Seq<char>>>, a: LocationKey, b: LocationKey)
    ensures
        build(records).weight_between(a, b) == build(records).weight_between(b, a),
{
    lemma_build_wf(records);
    lemma_symmetric(build(records), a, b);
}

/// The last record to join two locations decides the weight between them: if
/// record `k` gives an edge and no later record joins the same two locations,
/// the built graph has that edge, in both directions, with the distance that
/// record `k` states.
pub proof fn lemma_build_last_write_wins(records: Seq<Seq<Seq<char>>>, k: int)
    requires
        0 <= k < records.len(),
        gives_edge(records[k]),
        forall|m: int|
            k < m < records.len() ==> !joins(
                #[trigger] records[m],
                start_of(records[k]),
                end_of(records[k]),
            ),
    ensures
        build(records).weight_between(start_of(records[k]), end_of(records[k])) == distance_of(
            records[k][4],
        ),
        build(records).weight_between(end_of(records[k]), start_of(records[k])) == distance_of(
            records[k][4],
        ),
    decreases records.len(),
{
    let a = start_of(records[k]);
    let b = end_of(records[k]);
    let before = records.drop_last();
    let g = build(before);
    let r = records.last();
    lemma_build_wf(before);
    if k == records.len() - 1 {
        lemma_connect_joins(g, a, b, distance_of(r[4])->0);
    } else {
        assert(before[k] == records[k]);
        assert forall|m: int| k < m < before.len() implies !joins(#[trigger] before[m], a, b) by {
            assert(before[m] == records[m]);
        }
        lemma_build_last_write_wins(before, k);
        assert(!joins(records[records.len() - 1], a, b));
        if let Some(d) = distance_of(r[4]) {
            assert(g.nodes.contains(a) && g.nodes.contains(b));
            lemma_connect_keeps(g, start_of(r), end_of(r), d, a, b);
            lemma_connect_keeps(g, start_of(r), end_of(r), d, b, a);
        }
    }
}

/// The text of a stored sequence of locations.
pub open spec fn keys_of(nodes: Seq<Location>) -> Seq<LocationKey> {
    Seq::new(nodes.len(), |i: int| nodes[i]@)
}

/// The edges that a sequence of neighbour tables holds.
pub open spec fn weights_of(links: Seq<HashMap<usize, u32>>) -> Map<(int, int), u32> {
    Map::new(
        |p: (int, int)|
            0 <= p.0 < links.len() && 0 <= p.1 <= usize::MAX && links[p.0]@.contains_key(
                p.1 as usize,
            ),
        |p: (int, int)| links[p.0]@[p.1 as usize],
    )
}

/// An undirected graph with weighted edges over named locations.
///
/// Built edge by edge; an edge inserted again takes the later weight.
pub struct Graph {
    nodes: Vec<Location>,
    links: Vec<HashMap<usize, u32>>,
}

impl View for Graph {
    type V = GraphView;

    closed spec fn view(&self) -> GraphView {
        GraphView { nodes: keys_of(self.nodes@), weights: weights_of(self.links@) }
    }
}

impl Graph {
    /// What holds of every graph: one neighbour table for each location, and a
    /// well-formed content.
    #[verifier::type_invariant]
    spec fn inv(self) -> bool {
        &&& self.links.len() == self.nodes.len()
        &&& self@.wf()
    }

    /// The graph without locations.
    pub fn new() -> (g: Graph)
        ensures
            g@ == GraphView::empty(),
    {
        let g = Graph { nodes: Vec::new(), links: Vec::new() };
        assert(g@.nodes =~= Seq::empty());
        assert(g@.weights =~= Map::empty());
        g
    }

    /// The number of locations.
    pub fn len(&self) -> (n: usize)
        ensures
            n == self@.nodes.len(),
            self@.wf(),
    {
        proof {
            use_type_invariant(self);
        }
        self.nodes.len()
    }

    /// The location at position `i`.
    pub fn location(&self, i: usize) -> (loc: &Location)
        requires
            i < self@.nodes.len(),
        ensures
            loc@ == self@.nodes[i as int],
    {
        &self.nodes[i]
    }

    /// The position of `loc`, if it is stored.
    pub fn index_of(&self, loc: &Location) -> (found: Option<usize>)
        ensures
            match found {
                Some(i) => i < self@.nodes.len() && self@.nodes[i as int] == loc@
                    && self@.nodes.index_of(loc@) == i,
                None => !self@.nodes.contains(loc@),
            },
    {
        proof {
            use_type_invariant(self);
        }
        let found = find(&self.nodes, loc);
        proof {
            if let Some(i) = found {
                lemma_index_of_unique(self@.nodes, i as int);
            }
        }
        found
    }

    /// The weight of the edge from position `i` to position `j`, if there is
    /// one.
    pub fn weight(&self, i: usize, j: usize) -> (w: Option<u32>)
        ensures
            w == self@.weight(i as int, j as int),
    {
        if i < self.links.len() {
            match self.links[i].get(&j) {
                Some(w) => Some(*w),
                None => None,
            }
        } else {
            None
        }
    }

    /// The weight of the edge between two locations, if both are stored and
    /// joined.
    pub fn weight_between(&self, a: &Location, b: &Location) -> (w: Option<u32>)
        ensures
            w == self@.weight_between(a@, b@),
    {
        match self.index_of(a) {
            Some(i) => match self.index_of(b) {
                Some(j) => self.weight(i, j),
                None => None,
            },
            None => None,
        }
    }

    /// The neighbours of position `i`, each with the weight of the edge to it.
    pub fn neighbors(&self, i: usize) -> (table: &HashMap<usize, u32>)
        requires
            i < self@.nodes.len(),
        ensures
            forall|j: usize| #[trigger]
                table@.contains_key(j) <==> self@.adjacent(i as int, j as int),
            forall|j: usize| #[trigger]
                table@.contains_key(j) ==> self@.weight(i as int, j as int) == Some(table@[j]),
    {
        proof {
            use_type_invariant(self);
        }
        &self.links[i]
    }

    /// Inserts an undirected edge of weight `distance` between `from` and
    /// `to`, storing either location if it is new. An edge that was there
    /// takes the new weight, in both directions.
    pub fn add_edge(&mut self, from: Location, to: Location, distance: u32)
        ensures
            final(self)@ == old(self)@.connect(from@, to@, distance),
    {
        proof {
            use_type_invariant(&*self);
        }
        let mut taken = Graph::new();
        std::mem::swap(self, &mut taken);
        let Graph { mut nodes, mut links } = taken;
        let ghost g0 = old(self)@;
        let ghost a = from@;
        let ghost b = to@;
        proof {
            lemma_with_node(g0, a);
            lemma_with_node(g0.with_node(a), b);
        }
        let i = intern(&mut nodes, &mut links, from);
        let j = intern(&mut nodes, &mut links, to);
        let ghost g2 = g0.with_node(a).with_node(b);
        proof {
            assert(g2.nodes[i as int] == a);
            lemma_index_of_unique(g2.nodes, i as int);
            lemma_index_of_unique(g2.nodes, j as int);
        }
        links[i].insert(j, distance);
        links[j].insert(i, distance);
        proof {
            lemma_connect_wf(g0, a, b, distance);
            assert(weights_of(links@) =~= g0.connect(a, b, distance).weights);
        }
        *self = Graph { nodes, links };
    }
}

/// The first position of `nodes` that holds `loc`.
fn find(nodes: &Vec<Location>, loc: &Location) -> (found: Option<usize>)
    ensures
        match found {
            Some(i) => i < nodes.len() && nodes[i as int]@ == loc@,
            None => !keys_of(nodes@).contains(loc@),
        },
{
    let mut i: usize = 0;
    while i < nodes.len()
        invariant
            i <= nodes.len(),
            forall|k: int| 0 <= k < i ==> nodes[k]@ != loc@,
        decreases nodes.len() - i,
    {
        if nodes[i] == *loc {
            return Some(i);
        }
        i += 1;
    }
    None
}

/// The position of `loc` among `nodes`, after storing it with an empty
/// neighbour table if it was not there.
fn intern(nodes: &mut Vec<Location>, links: &mut Vec<HashMap<usize, u32>>, loc: Location) -> (i:
    usize)
    requires
        old(links).len() == old(nodes).len(),
    ensures
        final(links).len() == final(nodes).len(),
        i < final(nodes).len(),
        keys_of(final(nodes)@)[i as int] == loc@,
        keys_of(final(nodes)@) == (GraphView {
            nodes: keys_of(old(nodes)@),
            weights: weights_of(old(links)@),
        }).with_node(loc@).nodes,
        weights_of(final(links)@) == weights_of(old(links)@),
{
    match find(nodes, &loc) {
        Some(i) => {
            assert(keys_of(nodes@)[i as int] == loc@);
            i
        },
        None => {
            let i = nodes.len();
            nodes.push(loc);
            links.push(HashMap::new());
            proof {
                assert(keys_of(nodes@) =~= keys_of(old(nodes)@).push(loc@));
                assert(weights_of(links@) =~= weights_of(old(links)@));
            }
            i
        },
    }
}

/// A record that cannot be an edge because it has not five fields.
#[derive(Debug, Clone, Copy, PartialEq, Eq, Structural)]
pub struct InvalidRecord {
    /// The position of the record among those handed over.
    pub index: usize,
    /// The number of fields it has.
    pub fields: usize,
}

/// Builds the graph from records of five fields each: start city, start
/// country, end city, end country, distance.
///
/// The records are taken in order, and each gives one undirected edge; a
/// later record for the same two locations replaces the weight. A record
/// whose distance field states no distance is passed over. The first record
/// that has not five fields ends the construction with an error.
pub fn construct_graph(records: &Vec<Vec<String>>) -> (built: Result<Graph, InvalidRecord>)
    ensures
        match built {
            Ok(g) => {
                &&& forall|i: int| 0 <= i < records.len() ==> records[i].len() == 5
                &&& g@ == build(records_text(records@))
            },
            Err(e) => {
                &&& e.index < records.len()
                &&& e.fields == records[e.index as int].len()
                &&& e.fields != 5
                &&& forall|i: int| 0 <= i < e.index ==> records[i].len() == 5
            },
        },
{
    let ghost text = records_text(records@);
    let mut graph = Graph::new();
    let mut i: usize = 0;
    assert(text.take(0) =~= Seq::empty());
    while i < records.len()
        invariant
            i <= records.len(),
            text == records_text(records@),
            forall|k: int| 0 <= k < i ==> records[k].len() == 5,
            graph@ == build(text.take(i as int)),
        decreases records.len() - i,
    {
        let record = &records[i];
        if record.len() != 5 {
            return Err(InvalidRecord { index: i, fields: record.len() });
        }
        proof {
            assert(text.take(i + 1).drop_last() =~= text.take(i as int));
            assert(text.take(i + 1).last() == record_text(record@));
        }
        match parse_distance(record[4].as_str()) {
            Some(distance) => {
                let from = Location { city: record[0].clone(), country: record[1].clone() };
                let to = Location { city: record[2].clone(), country: record[3].clone() };
                graph.add_edge(from, to, distance);
            },
            None => {},
        }
        i += 1;
    }
    assert(text.take(i as int) =~= text);
    Ok(graph)
}

} // verus!
