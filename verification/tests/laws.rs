use network_flow::graph::Graph;

/// The arcs of the sample network: tail, head, capacity.
const ARCS: [(usize, usize, u32); 8] =
    [(0, 1, 10), (0, 2, 3), (1, 2, 2), (1, 3, 5), (2, 4, 7), (3, 4, 1), (3, 5, 3), (4, 5, 9)];

fn sample() -> Graph<usize, u32, u32> {
    let mut g = Graph::<usize, u32, u32>::create_graph(&vec![0, 1, 2, 3, 4, 5]);
    for (from, to, cap) in ARCS {
        g.add_edge(from, to, &cap);
    }
    g
}

/// What has been moved along the user-added arc `k`.
fn moved(g: &Graph<usize, u32, u32>, k: usize) -> u32 {
    *g.get_edge(2 * k + 1).unwrap().get_weight()
}

#[test]
fn max_flow_of_the_sample() {
    let mut g = sample();
    assert_eq!(g.get_max_flow(0, 5), 9);
}

#[test]
fn flow_is_conserved() {
    let mut g = sample();
    let value = g.get_max_flow(0, 5);
    for v in 0..6 {
        let mut out = 0;
        let mut into = 0;
        for (k, (from, to, _)) in ARCS.iter().enumerate() {
            if *from == v {
                out += moved(&g, k);
            }
            if *to == v {
                into += moved(&g, k);
            }
        }
        if v == 0 {
            assert_eq!(out - into, value);
        } else if v == 5 {
            assert_eq!(into - out, value);
        } else {
            assert_eq!(into, out);
        }
    }
}

#[test]
fn capacity_is_respected() {
    let mut g = sample();
    g.get_max_flow(0, 5);
    for (k, (_, _, cap)) in ARCS.iter().enumerate() {
        let left = *g.get_edge(2 * k).unwrap().get_weight();
        assert!(moved(&g, k) <= *cap);
        assert_eq!(left + moved(&g, k), *cap);
    }
}

#[test]
fn max_flow_is_min_cut() {
    let mut g = sample();
    let value = g.get_max_flow(0, 5);
    let side = g.get_cut(0);
    assert!(side.contains(&0));
    assert!(!side.contains(&5));
    let mut capacity = 0;
    for (from, to, cap) in ARCS {
        if side.contains(&from) && !side.contains(&to) {
            capacity += cap;
        }
    }
    assert_eq!(capacity, value);
    assert_eq!(side, vec![0, 1, 3]);
}

#[test]
fn cut_before_any_flow() {
    let g = sample();
    assert_eq!(g.get_cut(0), vec![0, 1, 2, 3, 4, 5]);
    assert_eq!(g.get_cut(5), vec![5]);
}

#[test]
fn min_cost_flow_has_the_value_of_max_flow() {
    let mut g = sample();
    let mut h = sample();
    let (value, cost) = g.mcmf(0, 5);
    assert_eq!(value, h.get_max_flow(0, 5));
    assert_eq!(cost, 0);
}

fn diamond() -> Graph<usize, i32, i32> {
    let mut g = Graph::<usize, i32, i32>::create_graph(&vec![0, 1, 2, 3]);
    g.add_edge2(0, 1, &1, &1);
    g.add_edge2(0, 2, &1, &2);
    g.add_edge2(1, 2, &1, &1);
    g.add_edge2(1, 3, &1, &3);
    g.add_edge2(2, 3, &1, &1);
    g
}

#[test]
fn min_cost_flow_takes_flow_back() {
    let mut g = diamond();
    assert_eq!(g.mcmf(0, 3), (2, 7));
    // nothing is left on the arc in the middle
    assert_eq!(*g.get_edge(4).unwrap().get_weight(), 1);
    assert_eq!(*g.get_edge(5).unwrap().get_weight(), 0);
}

#[test]
fn min_cost_flow_is_the_cost_of_what_was_moved() {
    let mut g = diamond();
    let (_, cost) = g.mcmf(0, 3);
    let mut sum = 0;
    for k in 0..5 {
        let e = g.get_edge(2 * k).unwrap();
        let back = g.get_edge(e.get_opp()).unwrap();
        sum += *back.get_weight() * *e.get_cost();
    }
    assert_eq!(sum, cost);
}

#[test]
fn min_cost_flow_with_a_subsidy() {
    let mut g = Graph::<usize, i32, i32>::create_graph(&vec![0, 1, 2]);
    g.add_edge2(0, 1, &1, &-2);
    g.add_edge2(1, 2, &1, &1);
    g.add_edge2(0, 2, &1, &5);
    assert_eq!(g.mcmf(0, 2), (2, 4));
}

#[test]
fn min_cost_flow_prefers_the_cheap_way() {
    let mut g = Graph::<usize, u8, u64>::create_graph(&vec![0, 1, 2, 3]);
    g.add_edge2(0, 1, &5, &10);
    g.add_edge2(0, 2, &5, &1);
    g.add_edge2(1, 3, &5, &1);
    g.add_edge2(2, 3, &3, &1);
    assert_eq!(g.mcmf(0, 3), (8, 3 * 2 + 5 * 11));
}

#[test]
fn nothing_flows_without_a_way() {
    let mut g = Graph::<usize, u32, u32>::create_graph(&vec![0, 1, 2, 3]);
    g.add_edge2(0, 1, &4, &1);
    g.add_edge2(2, 3, &4, &1);
    let before = g.to_bytes();
    assert_eq!(g.get_max_flow(0, 3), 0);
    assert_eq!(g.to_bytes(), before);
    assert_eq!(g.mcmf(0, 3), (0, 0));
    assert_eq!(g.to_bytes(), before);
    assert_eq!(g.get_cut(0), vec![0, 1]);
}

#[test]
fn max_flow_twice_moves_nothing_more() {
    let mut g = sample();
    assert_eq!(g.get_max_flow(0, 5), 9);
    let after = g.to_bytes();
    assert_eq!(g.get_max_flow(0, 5), 0);
    assert_eq!(g.to_bytes(), after);
}

#[test]
fn saved_and_loaded_behaves_the_same() {
    let mut g = sample();
    g.get_max_flow(0, 4);
    let mut h = Graph::<usize, u32, u32>::try_from_bytes(&g.to_bytes()).unwrap();
    assert_eq!(h.to_bytes(), g.to_bytes());
    assert_eq!(h.get_cut(0), g.get_cut(0));
    assert_eq!(h.get_max_flow(0, 5), g.get_max_flow(0, 5));
    assert_eq!(h.get_cut(0), g.get_cut(0));
    assert_eq!(h.to_bytes(), g.to_bytes());
}

#[test]
fn checked_max_flow_tests_its_arguments() {
    let mut g = Graph::<usize, u8, u8>::create_graph(&vec![0, 1, 2]);
    g.add_edge(0, 2, &200);
    g.add_edge(1, 2, &100);
    g.add_edge(0, 1, &100);
    assert!(g.checked_max_flow(0, 0).is_none());
    assert!(g.checked_max_flow(0, 3).is_none());
    assert!(g.checked_max_flow(3, 0).is_none());
    // more enters vertex 2 than a `u8` can hold
    assert!(!g.in_capacity_fits(2));
    assert!(g.checked_max_flow(0, 2).is_none());
    assert!(g.in_capacity_fits(1));
    assert_eq!(g.checked_max_flow(0, 1), Some(100));
}

#[test]
fn loops_carry_nothing() {
    let mut g = Graph::<usize, u32>::create_graph(&vec![0, 1]);
    g.add_edge(0, 0, &5);
    g.add_edge(0, 1, &2);
    g.add_edge(1, 1, &7);
    assert!(g.is_wf());
    assert_eq!(g.get_neighbor(0), vec![1, 0, 0]);
    assert_eq!(g.get_max_flow(0, 1), 2);
}

#[test]
fn checked_min_cost_flow_tests_the_room() {
    let mut g = diamond();
    assert!(g.has_cost_room(3));
    assert_eq!(g.checked_mcmf(0, 3), Some((2, 7)));
    let mut g = diamond();
    assert!(g.checked_mcmf(0, 0).is_none());
    assert!(g.checked_mcmf(0, 4).is_none());
    // a hundred units at the cost of two each are more than an `i8` holds
    let mut h = Graph::<usize, u8, i8>::create_graph(&vec![0, 1]);
    h.add_edge2(0, 1, &100, &2);
    let before = h.to_bytes();
    assert_eq!(h.in_capacity_of(1), Some(100));
    assert!(!h.has_cost_room(1));
    assert!(h.checked_mcmf(0, 1).is_none());
    assert_eq!(h.to_bytes(), before);
    // sixty-three units are not
    let mut h = Graph::<usize, u8, i8>::create_graph(&vec![0, 1]);
    h.add_edge2(0, 1, &63, &2);
    assert!(h.has_cost_room(1));
    assert_eq!(h.checked_mcmf(0, 1), Some((63, 126)));
    // a cost that is returned must have room as well
    let mut h = Graph::<usize, u8, u8>::create_graph(&vec![0, 1]);
    h.add_edge2(0, 1, &63, &2);
    assert!(h.has_cost_room(1));
    let mut h = Graph::<usize, u8, i8>::create_graph(&vec![0, 1]);
    h.add_edge2(0, 1, &64, &-2);
    assert!(h.has_cost_room(1));
    assert_eq!(h.checked_mcmf(0, 1), Some((64, -128)));
}

#[test]
fn little_leaves_the_source() {
    // more enters vertex 2 than a `u8` can hold, but little leaves vertex 0
    let mut g = Graph::<usize, u8, i32>::create_graph(&vec![0, 1, 2]);
    g.add_edge2(0, 1, &10, &1);
    g.add_edge2(1, 2, &200, &2);
    g.add_edge2(1, 2, &200, &3);
    assert!(!g.in_capacity_fits(2));
    assert_eq!(g.in_capacity_of(2), None);
    assert!(g.out_capacity_fits(0));
    assert_eq!(g.out_capacity_of(0), Some(10));
    assert_eq!(g.out_capacity_of(1), None);
    assert_eq!(g.out_capacity_of(2), Some(0));
    let mut h = Graph::<usize, u8, i32>::try_from_bytes(&g.to_bytes()).unwrap();
    assert_eq!(g.checked_max_flow(0, 2), Some(10));
    assert_eq!(g.out_capacity_of(0), Some(0));
    assert_eq!(g.out_capacity_of(2), Some(10));
    assert_eq!(h.mcmf(0, 2), (10, 30));
}

#[test]
fn nothing_to_route_needs_no_room() {
    // vertex 2 cannot be reached from vertex 0, and more enters it than an `i8` can hold
    let mut g = Graph::<usize, u8, i8>::create_graph(&vec![0, 1, 2]);
    g.add_edge2(1, 2, &200, &5);
    assert!(!g.reaches(0, 2));
    assert!(g.reaches(1, 2));
    assert!(!g.reaches(2, 1));
    assert!(!g.has_cost_room(2));
    let before = g.to_bytes();
    assert_eq!(g.checked_mcmf(0, 2), Some((0, 0)));
    assert_eq!(g.mcmf(0, 2), (0, 0));
    assert_eq!(g.to_bytes(), before);
    assert!(g.checked_mcmf(1, 2).is_none());
    // much leaves vertex 0 and much enters vertex 2, but no way leads from one to the other
    let mut h = Graph::<usize, u8, u8>::create_graph(&vec![0, 1, 2, 3]);
    h.add_edge(0, 1, &200);
    h.add_edge(0, 1, &200);
    h.add_edge(3, 2, &200);
    h.add_edge(3, 2, &200);
    assert!(!h.in_capacity_fits(2));
    assert!(!h.out_capacity_fits(0));
    assert_eq!(h.checked_max_flow(0, 2), Some(0));
    assert!(h.checked_max_flow(0, 1).is_none());
}
