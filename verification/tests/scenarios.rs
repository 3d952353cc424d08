use rand::Rng;
use tour_planner::graph::{construct_graph, Graph};
use tour_planner::location::Location;
use tour_planner::tsp::{distance, select_best, TourOptimizer};

fn row_of(fields: &[&str]) -> Vec<String> {
    fields.iter().map(|f| String::from(*f)).collect()
}

/// One run of the search with the usual cooling: from 10000 down to a
/// thousandth, a twentieth cooler at each step.
fn anneal(g: &Graph) -> Option<(u128, Vec<usize>)> {
    let mut run = TourOptimizer::start(g)?;
    let mut rng = rand::rng();
    let mut temperature: f32 = 10000.0;
    while run.keeps_going(temperature > 1e-3) {
        run.propose();
        let delta = run.current_distance() as f32 - run.next_distance() as f32;
        let take_worse = rng.random::<f32>() < (delta / temperature).exp();
        run.decide(take_worse);
        temperature *= 0.95;
    }
    Some(run.into_best())
}

fn several_runs(g: &Graph, workers: usize) -> Option<(u128, Vec<usize>)> {
    let mut results = Vec::new();
    let mut k = 0;
    while k < workers {
        results.push(anneal(g).unwrap());
        k += 1;
    }
    select_best(results)
}

#[test]
fn four_city_square_has_a_tour_of_forty() {
    let records = vec![
        row_of(&["A", "X", "B", "X", "10"]),
        row_of(&["B", "X", "C", "X", "10"]),
        row_of(&["C", "X", "D", "X", "10"]),
        row_of(&["D", "X", "A", "X", "10"]),
        row_of(&["A", "X", "C", "X", "14"]),
        row_of(&["B", "X", "D", "X", "14"]),
    ];
    let g = construct_graph(&records).unwrap();
    let (cost, tour) = several_runs(&g, 17).unwrap();
    assert_eq!(cost, 40);
    assert_eq!(tour.len(), 5);
    assert_eq!(tour[4], tour[0]);
    assert_eq!(distance(&tour, &g), 40);
    // up to where it starts and which way round it goes, the tour is A-B-C-D-A
    let names: Vec<String> = tour.iter().map(|i| g.location(*i).city.clone()).collect();
    let start = names.iter().position(|n| n == "A").unwrap() % 4;
    let round: Vec<&str> = (0..4).map(|k| names[(start + k) % 4].as_str()).collect();
    assert!(round == vec!["A", "B", "C", "D"] || round == vec!["A", "D", "C", "B"], "{:?}", names);
}

#[test]
fn two_cities_are_toured_there_and_back() {
    let mut g = Graph::new();
    g.add_edge(Location::new("A", "X"), Location::new("B", "X"), 5);
    let run = TourOptimizer::start(&g);
    assert!(run.is_some());
    let (cost, tour) = anneal(&g).unwrap();
    assert_eq!(cost, 10);
    assert!(tour == vec![0, 1, 0] || tour == vec![1, 0, 1]);
    let (cost, _) = several_runs(&g, 17).unwrap();
    assert_eq!(cost, 10);
}

#[test]
fn cooling_ends_a_run_long_before_the_limit_of_steps() {
    let mut g = Graph::new();
    g.add_edge(Location::new("A", "X"), Location::new("B", "X"), 5);
    let mut run = TourOptimizer::start(&g).unwrap();
    let mut temperature: f32 = 10000.0;
    while run.keeps_going(temperature > 1e-3) {
        run.propose();
        run.decide(false);
        temperature *= 0.95;
    }
    assert!(temperature <= 1e-3);
    assert!(run.iteration() > 300 && run.iteration() < 330, "{}", run.iteration());
}

#[test]
fn search_finds_the_ring_in_a_ring_with_dear_chords() {
    // six cities on a ring of unit steps; every other pair is joined at 100
    let mut g = Graph::new();
    let name = |i: usize| Location::new(&format!("c{}", i), "X");
    let mut a = 0;
    while a < 6 {
        let mut b = a + 1;
        while b < 6 {
            let w = if b == a + 1 || (a == 0 && b == 5) { 1 } else { 100 };
            g.add_edge(name(a), name(b), w);
            b += 1;
        }
        a += 1;
    }
    let (cost, tour) = several_runs(&g, 17).unwrap();
    assert_eq!(cost, distance(&tour, &g));
    assert!(cost >= 6);
    assert!(cost <= 6 + 4 * 99);
}
