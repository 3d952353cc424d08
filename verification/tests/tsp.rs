use tour_planner::graph::Graph;
use tour_planner::location::Location;
use tour_planner::tsp::{
    close_route, distance, get_random_route, get_route_perturbation, is_swap_valid,
    is_valid_around, other_index, select_best, try_reversal, try_swap, TourOptimizer,
    MAX_ITERATIONS, MAX_SHUFFLES, MAX_TRIES,
};

fn name(i: usize) -> Location {
    Location::new(&format!("city{}", i), "X")
}

fn graph_of(edges: &[(usize, usize, u32)]) -> Graph {
    let mut g = Graph::new();
    for (a, b, w) in edges {
        g.add_edge(name(*a), name(*b), *w);
    }
    g
}

/// Four cities on a square with sides 10 and diagonals 14, stored in order.
fn square() -> Graph {
    graph_of(&[(0, 1, 10), (1, 2, 10), (2, 3, 10), (3, 0, 10), (0, 2, 14), (1, 3, 14)])
}

/// Five cities on a ring, stored in order, each joined to the next only.
fn ring() -> Graph {
    graph_of(&[(0, 1, 1), (1, 2, 2), (2, 3, 3), (3, 4, 4), (4, 0, 5)])
}

fn complete(n: usize) -> Graph {
    let mut g = Graph::new();
    let mut a = 0;
    while a < n {
        let mut b = a + 1;
        while b < n {
            g.add_edge(name(a), name(b), (1 + a * b + (a + b) % 3) as u32);
            b += 1;
        }
        a += 1;
    }
    g
}

fn is_closed_tour_of(g: &Graph, route: &Vec<usize>) -> bool {
    let n = g.len();
    if n == 0 || route.len() != n + 1 || route[n] != route[0] {
        return false;
    }
    let mut seen = vec![false; n];
    let mut k = 0;
    while k < n {
        if route[k] >= n || seen[route[k]] {
            return false;
        }
        seen[route[k]] = true;
        k += 1;
    }
    true
}

fn every_step_is_an_edge(g: &Graph, route: &Vec<usize>) -> bool {
    let mut k = 0;
    while k + 1 < route.len() {
        if g.weight(route[k], route[k + 1]).is_none() {
            return false;
        }
        k += 1;
    }
    true
}

#[test]
fn limits_of_the_search() {
    assert_eq!(MAX_TRIES, 100);
    assert_eq!(MAX_ITERATIONS, 100000);
    assert!(MAX_SHUFFLES >= 1);
}

#[test]
fn distance_sums_the_steps() {
    let g = square();
    assert_eq!(distance(&vec![0, 1, 2, 3, 0], &g), 40);
    assert_eq!(distance(&vec![0, 2, 1, 3, 0], &g), 14 + 10 + 14 + 10);
    assert_eq!(distance(&vec![0, 1, 3, 2, 0], &g), 10 + 14 + 10 + 14);
    assert_eq!(distance(&vec![0, 1], &g), 10);
}

#[test]
fn distance_of_empty_and_single_route_is_zero() {
    let g = square();
    assert_eq!(distance(&Vec::new(), &g), 0);
    assert_eq!(distance(&vec![2], &g), 0);
}

#[test]
fn distance_counts_nothing_for_a_missing_edge() {
    let g = ring();
    // 0-2 and 3-0 are no edges
    assert_eq!(distance(&vec![0, 2, 3, 0], &g), 3);
    assert_eq!(distance(&vec![0, 0], &g), 0);
    assert_eq!(distance(&vec![0, 99, 1], &g), 0);
}

#[test]
fn distance_does_not_overflow_on_greatest_weights() {
    let g = graph_of(&[(0, 1, u32::MAX)]);
    let mut route = Vec::new();
    let mut k = 0;
    while k < 1001 {
        route.push(k % 2);
        k += 1;
    }
    assert_eq!(distance(&route, &g), 1000 * (u32::MAX as u128));
}

#[test]
fn swap_of_opposite_corners_is_valid_on_the_square() {
    let g = square();
    let route = vec![0, 1, 2, 3, 0];
    assert!(is_swap_valid(&route, &g, 0, 2));
    assert!(is_swap_valid(&route, &g, 1, 3));
    assert!(is_swap_valid(&route, &g, 2, 0));
}

#[test]
fn swap_of_neighbours_is_valid_where_the_new_steps_are_edges() {
    let g = square();
    let route = vec![0, 1, 2, 3, 0];
    // 1-0-2-3-1 goes along both diagonals
    assert!(is_swap_valid(&route, &g, 0, 1));
    assert!(is_swap_valid(&route, &g, 3, 0));
    let g = ring();
    let route = vec![0, 1, 2, 3, 4, 0];
    // 0-2-1-3 asks for the edges 0-2 and 1-3
    assert!(!is_swap_valid(&route, &g, 1, 2));
    assert!(!is_swap_valid(&route, &g, 4, 0));
}

#[test]
fn steps_around_two_entries_are_looked_up_going_round() {
    let g = ring();
    let route = vec![0, 1, 2, 3, 4, 0];
    assert!(is_valid_around(&route, &g, 0, 4));
    assert!(is_valid_around(&route, &g, 2, 2));
    let route = vec![0, 1, 2, 4, 3, 0];
    assert!(is_valid_around(&route, &g, 1, 1));
    // the step from the last city back to the first, 3-0, is no edge
    assert!(!is_valid_around(&route, &g, 0, 1));
    assert!(!is_valid_around(&route, &g, 0, 4));
    assert!(!is_valid_around(&route, &g, 3, 1));
    assert!(!is_valid_around(&route, &g, 2, 1));
}

#[test]
fn swap_of_an_entry_with_itself_passes_where_its_steps_are_edges() {
    let g = ring();
    assert!(is_swap_valid(&vec![0, 1, 2, 3, 4, 0], &g, 1, 1));
    assert!(is_swap_valid(&vec![0, 1, 2, 3, 4, 0], &g, 0, 0));
    assert!(!is_swap_valid(&vec![0, 2, 1, 3, 4, 0], &g, 1, 1));
}

#[test]
fn swap_is_invalid_where_an_edge_is_missing() {
    let g = ring();
    let route = vec![0, 1, 2, 3, 4, 0];
    assert!(!is_swap_valid(&route, &g, 0, 2));
    assert!(!is_swap_valid(&route, &g, 1, 3));
    assert!(!is_swap_valid(&route, &g, 1, 4));
}

#[test]
fn swap_test_goes_round_the_closed_route() {
    // positions 0 and 3 of six cities: the city before position 0 is the one at position 5
    let mut g = Graph::new();
    let mut i = 0;
    while i < 6 {
        g.add_edge(name(i), name((i + 1) % 6), 1);
        i += 1;
    }
    let route = vec![0, 1, 2, 3, 4, 5, 0];
    assert!(!is_swap_valid(&route, &g, 0, 3));
    g.add_edge(name(5), name(3), 1);
    g.add_edge(name(3), name(1), 1);
    g.add_edge(name(2), name(0), 1);
    assert!(!is_swap_valid(&route, &g, 0, 3));
    g.add_edge(name(0), name(4), 1);
    assert!(is_swap_valid(&route, &g, 0, 3));
    assert!(is_swap_valid(&route, &g, 3, 0));
}

#[test]
fn try_swap_exchanges_two_entries() {
    let g = square();
    let route = vec![0, 1, 2, 3, 0];
    assert_eq!(try_swap(&route, &g, 1, 3), Some(vec![0, 3, 2, 1, 0]));
    assert_eq!(try_swap(&route, &g, 3, 1), Some(vec![0, 3, 2, 1, 0]));
}

#[test]
fn try_swap_closes_the_route_again_when_the_first_entry_moves() {
    let g = square();
    let route = vec![0, 1, 2, 3, 0];
    assert_eq!(try_swap(&route, &g, 0, 2), Some(vec![2, 1, 0, 3, 2]));
    assert_eq!(try_swap(&route, &g, 2, 0), Some(vec![2, 1, 0, 3, 2]));
}

#[test]
fn try_swap_gives_nothing_for_an_invalid_exchange() {
    let g = ring();
    let route = vec![0, 1, 2, 3, 4, 0];
    assert_eq!(try_swap(&route, &g, 0, 2), None);
    assert_eq!(try_swap(&route, &g, 4, 1), None);
    assert_eq!(try_swap(&route, &g, 2, 2), Some(route.clone()));
}

#[test]
fn try_reversal_turns_a_stretch_round() {
    let g = complete(6);
    let route = vec![0, 1, 2, 3, 4, 5, 0];
    assert_eq!(try_reversal(&route, &g, 1, 4), Some(vec![0, 4, 3, 2, 1, 5, 0]));
    assert_eq!(try_reversal(&route, &g, 2, 3), Some(vec![0, 1, 3, 2, 4, 5, 0]));
    assert_eq!(try_reversal(&route, &g, 0, 5), Some(vec![5, 4, 3, 2, 1, 0, 5]));
    assert_eq!(try_reversal(&route, &g, 0, 2), Some(vec![2, 1, 0, 3, 4, 5, 2]));
    assert_eq!(try_reversal(&route, &g, 3, 5), Some(vec![0, 1, 2, 5, 4, 3, 0]));
}

#[test]
fn try_reversal_gives_nothing_where_a_new_step_is_no_edge() {
    let g = ring();
    let route = vec![0, 1, 2, 3, 4, 0];
    // 0-3-2-1-4-0 asks for the edges 0-3 and 1-4
    assert_eq!(try_reversal(&route, &g, 1, 3), None);
    assert_eq!(try_reversal(&route, &g, 1, 2), None);
    assert_eq!(try_reversal(&route, &g, 0, 1), None);
}

#[test]
fn try_reversal_of_the_whole_round_walks_it_the_other_way() {
    let g = ring();
    let route = vec![0, 1, 2, 3, 4, 0];
    let next = try_reversal(&route, &g, 0, 4).unwrap();
    assert_eq!(next, vec![4, 3, 2, 1, 0, 4]);
    assert!(every_step_is_an_edge(&g, &next));
    assert_eq!(distance(&next, &g), 15);
    assert_eq!(try_reversal(&route, &g, 0, 3), Some(vec![3, 2, 1, 0, 4, 3]));
    assert_eq!(try_reversal(&route, &g, 1, 4), Some(vec![0, 4, 3, 2, 1, 0]));
}

#[test]
fn try_reversal_looks_at_the_ends_of_the_stretch_only() {
    let g = ring();
    // 0-2 and 2-4 are no edges; the stretch 4-1-3 is turned into 3-1-4
    let route = vec![0, 2, 4, 1, 3, 0];
    assert_eq!(try_reversal(&route, &g, 2, 4), None);
    let route = vec![2, 0, 4, 1, 3, 2];
    // turned round, 0-4 becomes 3-1-4-0: the test asks for 2-3, 3-1, 4-0 and 0-2
    assert_eq!(try_reversal(&route, &g, 1, 4), None);
}

#[test]
fn close_route_appends_the_first_entry() {
    let g = square();
    assert_eq!(close_route(&vec![2, 0, 3, 1], &g), Some(vec![2, 0, 3, 1, 2]));
}

#[test]
fn close_route_looks_at_the_closing_step_only() {
    let g = ring();
    // 0-2, 2-4 and 4-1 are no edges, but 1-0 is
    assert_eq!(close_route(&vec![0, 2, 4, 1], &g), Some(vec![0, 2, 4, 1, 0]));
    assert_eq!(close_route(&vec![0, 1, 2], &g), None);
}

#[test]
fn close_route_of_nothing_is_nothing() {
    let g = square();
    assert_eq!(close_route(&Vec::new(), &g), None);
}

#[test]
fn close_route_of_one_position_needs_a_loop() {
    let g = square();
    assert_eq!(close_route(&vec![1], &g), None);
    let g = graph_of(&[(0, 0, 3)]);
    assert_eq!(close_route(&vec![0], &g), Some(vec![0, 0]));
}

#[test]
fn other_index_skips_the_first() {
    assert_eq!(other_index(2, 0), 0);
    assert_eq!(other_index(2, 1), 1);
    assert_eq!(other_index(2, 2), 3);
    assert_eq!(other_index(2, 3), 4);
    assert_eq!(other_index(0, 0), 1);
}

#[test]
fn random_route_is_a_closed_tour() {
    let g = complete(7);
    let mut round = 0;
    while round < 50 {
        let route = get_random_route(&g).unwrap();
        assert!(is_closed_tour_of(&g, &route));
        assert!(g.weight(route[6], route[0]).is_some());
        round += 1;
    }
}

#[test]
fn random_route_closes_on_a_ring() {
    let g = ring();
    let mut round = 0;
    while round < 50 {
        let route = get_random_route(&g).unwrap();
        assert!(is_closed_tour_of(&g, &route));
        assert!(g.weight(route[4], route[0]).is_some());
        round += 1;
    }
}

#[test]
fn random_routes_are_not_all_in_storing_order() {
    let g = complete(8);
    let mut orders = std::collections::HashSet::new();
    let mut round = 0;
    while round < 40 {
        orders.insert(get_random_route(&g).unwrap());
        round += 1;
    }
    assert!(orders.len() > 1);
    assert!(orders.iter().any(|r| *r != vec![0, 1, 2, 3, 4, 5, 6, 7, 0]));
}

#[test]
fn random_route_of_empty_graph_is_none() {
    assert_eq!(get_random_route(&Graph::new()), None);
}

#[test]
fn random_route_of_two_cities_is_there_and_back() {
    let g = graph_of(&[(0, 1, 5)]);
    let route = get_random_route(&g).unwrap();
    assert!(route == vec![0, 1, 0] || route == vec![1, 0, 1]);
}

#[test]
fn random_route_of_one_city_needs_a_loop() {
    let g = graph_of(&[(0, 0, 5)]);
    assert_eq!(get_random_route(&g), Some(vec![0, 0]));
}

#[test]
fn random_route_gives_up_where_no_order_closes() {
    // two cities, each with a loop, and no edge between them
    let g = graph_of(&[(0, 0, 1), (1, 1, 1)]);
    assert_eq!(get_random_route(&g), None);
}

#[test]
fn perturbation_of_a_complete_graph_changes_the_route() {
    let g = complete(6);
    let route = vec![0, 1, 2, 3, 4, 5, 0];
    let mut changed = 0;
    let mut round = 0;
    while round < 50 {
        let next = get_route_perturbation(&route, &g);
        assert!(is_closed_tour_of(&g, &next));
        if next != route {
            changed += 1;
        }
        round += 1;
    }
    // every exchange passes, so the first pair drawn is exchanged
    assert_eq!(changed, 50);
}

#[test]
fn perturbation_where_every_exchange_passes_is_an_exchange() {
    let g = complete(5);
    let route = vec![4, 2, 0, 1, 3, 4];
    let mut round = 0;
    while round < 50 {
        let next = get_route_perturbation(&route, &g);
        let mut explained = false;
        let mut i = 0;
        while i < 5 {
            let mut j = 0;
            while j < 5 {
                if i != j && try_swap(&route, &g, i, j) == Some(next.clone()) {
                    explained = true;
                }
                j += 1;
            }
            i += 1;
        }
        assert!(explained, "{:?} is no exchange in {:?}", next, route);
        round += 1;
    }
}

#[test]
fn perturbation_is_an_exchange_or_a_reversal() {
    let g = complete(5);
    let route = vec![3, 1, 4, 0, 2, 3];
    let mut round = 0;
    while round < 100 {
        let next = get_route_perturbation(&route, &g);
        let mut explained = next == route;
        let mut i = 0;
        while i < 5 {
            let mut j = 0;
            while j < 5 {
                if i != j && try_swap(&route, &g, i, j) == Some(next.clone()) {
                    explained = true;
                }
                if i < j && try_reversal(&route, &g, i, j) == Some(next.clone()) {
                    explained = true;
                }
                j += 1;
            }
            i += 1;
        }
        assert!(explained, "{:?} does not follow {:?}", next, route);
        round += 1;
    }
}

#[test]
fn perturbation_without_a_valid_change_gives_the_route_back() {
    // three cities with no edge but one from each to itself
    let g = graph_of(&[(0, 0, 1), (1, 1, 1), (2, 2, 1)]);
    let route = vec![0, 1, 2, 0];
    assert_eq!(get_route_perturbation(&route, &g), route);
}

#[test]
fn perturbation_of_two_cities_starts_from_the_other() {
    let g = graph_of(&[(0, 1, 5)]);
    assert_eq!(get_route_perturbation(&vec![0, 1, 0], &g), vec![1, 0, 1]);
    assert_eq!(get_route_perturbation(&vec![1, 0, 1], &g), vec![0, 1, 0]);
}

#[test]
fn perturbation_on_a_ring_turns_a_stretch_round() {
    let g = ring();
    let route = vec![0, 1, 2, 3, 4, 0];
    let mut round = 0;
    while round < 20 {
        let next = get_route_perturbation(&route, &g);
        assert!(is_closed_tour_of(&g, &next));
        assert!(every_step_is_an_edge(&g, &next));
        assert_eq!(distance(&next, &g), 15);
        assert_ne!(next, route);
        let mut explained = false;
        let mut i = 0;
        while i < 5 {
            let mut j = i + 1;
            while j < 5 {
                if try_reversal(&route, &g, i, j) == Some(next.clone()) {
                    explained = true;
                }
                j += 1;
            }
            i += 1;
        }
        assert!(explained);
        round += 1;
    }
}

#[test]
fn perturbations_differ_from_draw_to_draw() {
    let g = complete(6);
    let route = vec![0, 1, 2, 3, 4, 5, 0];
    let mut seen = std::collections::HashSet::new();
    let mut round = 0;
    while round < 60 {
        seen.insert(get_route_perturbation(&route, &g));
        round += 1;
    }
    assert!(seen.len() > 2);
}

#[test]
fn perturbation_of_a_short_route_gives_it_back() {
    let g = square();
    assert_eq!(get_route_perturbation(&Vec::new(), &g), Vec::<usize>::new());
    assert_eq!(get_route_perturbation(&vec![1], &g), vec![1]);
    assert_eq!(get_route_perturbation(&vec![1, 1], &g), vec![1, 1]);
}

#[test]
fn exchange_keeps_every_step_on_an_edge() {
    // a ring of six with all chords between cities two apart
    let mut g = Graph::new();
    let mut i = 0;
    while i < 6 {
        g.add_edge(name(i), name((i + 1) % 6), 1);
        g.add_edge(name(i), name((i + 2) % 6), 2);
        i += 1;
    }
    let route = vec![0, 1, 2, 3, 4, 5, 0];
    assert!(every_step_is_an_edge(&g, &route));
    let mut i = 0;
    while i < 6 {
        let mut j = 0;
        while j < 6 {
            if let Some(next) = try_swap(&route, &g, i, j) {
                assert!(is_closed_tour_of(&g, &next));
                assert!(every_step_is_an_edge(&g, &next), "{:?}", next);
            }
            j += 1;
        }
        i += 1;
    }
}

#[test]
fn reversal_keeps_every_step_on_an_edge() {
    let mut g = Graph::new();
    let mut i = 0;
    while i < 6 {
        g.add_edge(name(i), name((i + 1) % 6), 1);
        g.add_edge(name(i), name((i + 2) % 6), 2);
        i += 1;
    }
    let route = vec![0, 1, 2, 3, 4, 5, 0];
    let mut passed = 0;
    let mut i = 0;
    while i < 6 {
        let mut j = i + 1;
        while j < 6 {
            if let Some(next) = try_reversal(&route, &g, i, j) {
                assert!(is_closed_tour_of(&g, &next));
                assert!(every_step_is_an_edge(&g, &next), "{:?}", next);
                passed += 1;
            }
            j += 1;
        }
        i += 1;
    }
    assert!(passed > 0);
}

#[test]
fn search_from_a_tour_on_edges_stays_on_edges() {
    // a ring of eight with chords between cities two apart
    let mut g = Graph::new();
    let mut i = 0;
    while i < 8 {
        g.add_edge(name(i), name((i + 1) % 8), 1 + (i as u32 % 3));
        g.add_edge(name(i), name((i + 2) % 8), 2 + (i as u32 % 2));
        i += 1;
    }
    let mut route = vec![0, 1, 2, 3, 4, 5, 6, 7, 0];
    let mut changes = 0;
    let mut step = 0;
    while step < 300 {
        let next = get_route_perturbation(&route, &g);
        assert!(is_closed_tour_of(&g, &next));
        assert!(every_step_is_an_edge(&g, &next), "{:?} after {:?}", next, route);
        if next != route {
            changes += 1;
        }
        route = next;
        step += 1;
    }
    assert!(changes > 0);
}

#[test]
fn optimizer_starts_on_its_first_tour() {
    let g = square();
    let run = TourOptimizer::start(&g).unwrap();
    assert_eq!(run.iteration(), 0);
    assert!(is_closed_tour_of(&g, run.current_route()));
    assert_eq!(run.current_route(), run.best_route());
    assert_eq!(run.current_distance(), distance(run.current_route(), &g));
    assert_eq!(run.best_distance(), run.current_distance());
    assert_eq!(run.next_distance(), run.current_distance());
}

#[test]
fn optimizer_does_not_start_on_an_empty_graph() {
    let g = Graph::new();
    assert!(TourOptimizer::start(&g).is_none());
}

#[test]
fn optimizer_takes_a_cheaper_tour_without_being_asked() {
    let g = complete(6);
    let mut taken = 0;
    let mut round = 0;
    while round < 200 && taken == 0 {
        let mut run = TourOptimizer::start(&g).unwrap();
        run.propose();
        let before = run.current_distance();
        let offered = run.next_distance();
        run.decide(false);
        assert_eq!(run.iteration(), 1);
        if offered < before {
            assert_eq!(run.current_distance(), offered);
            assert_eq!(run.best_distance(), offered);
            taken += 1;
        } else {
            assert_eq!(run.current_distance(), before);
            assert_eq!(run.best_distance(), before);
        }
        round += 1;
    }
    assert!(taken > 0);
}

#[test]
fn optimizer_takes_a_dearer_tour_only_when_admitted() {
    let g = complete(6);
    let mut seen = 0;
    let mut round = 0;
    while round < 200 && seen == 0 {
        let mut run = TourOptimizer::start(&g).unwrap();
        run.propose();
        let before = run.current_distance();
        let offered = run.next_distance();
        if offered > before {
            let best = run.best_distance();
            run.decide(true);
            assert_eq!(run.current_distance(), offered);
            assert_eq!(run.best_distance(), best);
            assert_eq!(run.current_distance(), distance(run.current_route(), &g));
            assert_eq!(run.best_distance(), distance(run.best_route(), &g));
            seen += 1;
        }
        round += 1;
    }
    assert!(seen > 0);
}

#[test]
fn optimizer_keeps_its_tour_when_a_dearer_one_is_not_admitted() {
    let g = complete(6);
    let mut seen = 0;
    let mut round = 0;
    while round < 200 && seen == 0 {
        let mut run = TourOptimizer::start(&g).unwrap();
        run.propose();
        let before = run.current_distance();
        let route = run.current_route().clone();
        if run.next_distance() >= before {
            run.decide(false);
            assert_eq!(run.current_distance(), before);
            assert_eq!(*run.current_route(), route);
            assert_eq!(run.iteration(), 1);
            seen += 1;
        }
        round += 1;
    }
    assert!(seen > 0);
}

#[test]
fn optimizer_best_never_rises_and_never_exceeds_current() {
    let g = complete(7);
    let mut run = TourOptimizer::start(&g).unwrap();
    let mut x: u64 = 99;
    let mut last_best = run.best_distance();
    let mut step = 0;
    while step < 2000 {
        run.propose();
        x = x.wrapping_mul(6364136223846793005).wrapping_add(1442695040888963407);
        run.decide((x >> 40) % 3 == 0);
        assert!(run.best_distance() <= last_best);
        assert!(run.best_distance() <= run.current_distance());
        assert_eq!(run.best_distance(), distance(run.best_route(), &g));
        assert_eq!(run.current_distance(), distance(run.current_route(), &g));
        assert!(is_closed_tour_of(&g, run.current_route()));
        assert!(is_closed_tour_of(&g, run.best_route()));
        assert!(every_step_is_an_edge(&g, run.best_route()));
        last_best = run.best_distance();
        step += 1;
        assert_eq!(run.iteration(), step);
    }
}

#[test]
fn optimizer_stops_at_the_limit_of_steps() {
    let g = graph_of(&[(0, 1, 5)]);
    let mut run = TourOptimizer::start(&g).unwrap();
    let mut step = 0;
    while run.keeps_going(true) {
        run.decide(true);
        step += 1;
    }
    assert_eq!(step, MAX_ITERATIONS);
    assert_eq!(run.iteration(), MAX_ITERATIONS);
    run.propose();
    run.decide(true);
    assert_eq!(run.iteration(), MAX_ITERATIONS);
    assert!(!run.keeps_going(true));
}

#[test]
fn optimizer_does_not_go_on_when_cold() {
    let g = square();
    let run = TourOptimizer::start(&g).unwrap();
    assert!(run.keeps_going(true));
    assert!(!run.keeps_going(false));
}

#[test]
fn optimizer_hands_out_its_best_tour() {
    let g = square();
    let mut run = TourOptimizer::start(&g).unwrap();
    let mut step = 0;
    while step < 50 {
        run.propose();
        run.decide(step % 2 == 0);
        step += 1;
    }
    let best_cost = run.best_distance();
    let best_route = run.best_route().clone();
    let (cost, route) = run.into_best();
    assert_eq!(cost, best_cost);
    assert_eq!(route, best_route);
    assert_eq!(cost, distance(&route, &g));
}

#[test]
fn select_best_of_nothing_is_none() {
    assert_eq!(select_best(Vec::new()), None);
}

#[test]
fn select_best_takes_the_cheapest() {
    let results = vec![(48, vec![0, 2, 1, 3, 0]), (40, vec![0, 1, 2, 3, 0]), (48, vec![0, 1, 3, 2, 0])];
    assert_eq!(select_best(results), Some((40, vec![0, 1, 2, 3, 0])));
}

#[test]
fn select_best_takes_the_first_of_equally_cheap_results() {
    let results = vec![
        (50, vec![9]),
        (40, vec![1]),
        (40, vec![2]),
        (45, vec![3]),
        (40, vec![4]),
    ];
    assert_eq!(select_best(results), Some((40, vec![1])));
}

#[test]
fn select_best_of_one_result() {
    assert_eq!(select_best(vec![(u128::MAX, vec![0, 0])]), Some((u128::MAX, vec![0, 0])));
}

#[test]
fn select_best_cost_is_the_minimum() {
    let mut x: u64 = 7;
    let mut round = 0;
    while round < 50 {
        let mut results = Vec::new();
        let mut k = 0;
        while k < 1 + round % 9 {
            x = x.wrapping_mul(6364136223846793005).wrapping_add(1442695040888963407);
            results.push((((x >> 40) % 10) as u128, vec![k]));
            k += 1;
        }
        let least = results.iter().map(|r| r.0).min().unwrap();
        let first = results.iter().position(|r| r.0 == least).unwrap();
        assert_eq!(select_best(results), Some((least, vec![first])));
        round += 1;
    }
}
