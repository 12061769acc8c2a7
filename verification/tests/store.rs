use network_flow::costtype::{MulTE, MulTEDefaultType};
use network_flow::graph::Graph;
use network_flow::scalar::{checked_minus, checked_plus, Scalar};

#[test]
fn vertices_are_numbered_in_order() {
    let mut g = Graph::<String, u32>::new();
    assert_eq!(g.node_count(), 0);
    assert_eq!(g.add_node(&String::from("a")), 0);
    assert_eq!(g.add_node(&String::from("b")), 1);
    assert_eq!(g.add_node(&String::from("a")), 2);
    assert_eq!(g.node_count(), 3);
    assert_eq!(g.get_label(1), Some(&String::from("b")));
    assert_eq!(g.get_label(3), None);
    assert_eq!(g.get_index(&String::from("a")), Some(2));
    assert_eq!(g.get_index(&String::from("b")), Some(1));
    assert_eq!(g.get_index(&String::from("c")), None);
}

#[test]
fn create_graph_keeps_the_labels() {
    let g = Graph::<u8, u32>::create_graph(&vec![7, 8, 9]);
    assert_eq!(g.node_count(), 3);
    assert_eq!(g.edge_count(), 0);
    assert_eq!(g.get_label(0), Some(&7));
    assert_eq!(g.get_label(2), Some(&9));
    assert_eq!(g.get_index(&8), Some(1));
    assert!(g.is_wf());
}

#[test]
fn init_graph_empties() {
    let mut g = Graph::<u8, u32>::create_graph(&vec![7, 8, 9]);
    g.add_edge(0, 1, &3);
    g.init_graph();
    assert_eq!(g.node_count(), 0);
    assert_eq!(g.edge_count(), 0);
    assert_eq!(g.get_label(0), None);
    assert!(g.is_wf());
}

#[test]
fn arcs_come_in_pairs() {
    let mut g = Graph::<u8, u32, i64>::create_graph(&vec![0, 1, 2]);
    g.add_edge2(0, 1, &5, &-3);
    assert_eq!(g.edge_count(), 2);
    let e = g.get_edge(0).unwrap();
    let back = g.get_edge(1).unwrap();
    assert_eq!((e.get_from(), e.get_to(), e.get_opp()), (0, 1, 1));
    assert_eq!((back.get_from(), back.get_to(), back.get_opp()), (1, 0, 0));
    assert_eq!((*e.get_weight(), *e.get_cost()), (5, -3));
    assert_eq!((*back.get_weight(), *back.get_cost()), (0, -3));
    assert!(!e.is_reversed() && back.is_reversed());
    assert!(!e.is_full() && back.is_full());
    assert!(g.get_edge(2).is_none());
}

#[test]
fn add_edge_costs_nothing() {
    let mut g = Graph::<u8, u32, i64>::create_graph(&vec![0, 1]);
    g.add_edge(0, 1, &5);
    assert_eq!(*g.get_edge(0).unwrap().get_cost(), 0);
    assert_eq!(*g.get_edge(1).unwrap().get_cost(), 0);
}

#[test]
fn chains_list_the_newest_arc_first() {
    let mut g = Graph::<u8, u32>::create_graph(&vec![0, 1, 2, 3]);
    assert!(g.first_edge(0).is_none());
    assert!(g.get_all_edges(0).is_empty());
    g.add_edge(0, 1, &1);
    g.add_edge(0, 2, &1);
    g.add_edge(3, 0, &1);
    assert_eq!(g.get_neighbor(0), vec![3, 2, 1]);
    assert_eq!(g.get_neighbor(3), vec![0]);
    let all = g.get_all_edges(0);
    let indices: Vec<usize> = all.iter().map(|x| x.1).collect();
    assert_eq!(indices, vec![5, 2, 0]);
    let first = g.first_edge(0).unwrap();
    assert_eq!(first.get_to(), 3);
    let second = g.next_edge(first).unwrap();
    assert_eq!(second.get_to(), 2);
    let third = g.next_edge(second).unwrap();
    assert_eq!(third.get_to(), 1);
    assert!(g.next_edge(third).is_none());
}

#[test]
fn product_of_capacity_and_cost() {
    assert_eq!(<MulTEDefaultType as MulTE<u8, i64>>::mul(&200, &-3), -600);
    assert_eq!(<MulTEDefaultType as MulTE<u32, u32>>::mul(&7, &6), 42);
    assert_eq!(<MulTEDefaultType as MulTE<i16, i128>>::mul(&-4, &-5), 20);
    assert_eq!(<MulTEDefaultType as MulTE<u128, u8>>::mul(&3, &4), 12);
    assert_eq!(<MulTEDefaultType as MulTE<i32, ()>>::mul(&0, &()), ());
}

#[test]
fn numbers_split_and_join() {
    assert_eq!((-5i8).split(), (true, 5));
    assert_eq!(i128::MIN.split(), (true, 1u128 << 127));
    assert_eq!(u64::MAX.split(), (false, u64::MAX as u128));
    assert_eq!(<i8 as Scalar>::join(true, 128), i8::MIN);
    assert_eq!(<i128 as Scalar>::join(true, 1u128 << 127), i128::MIN);
    assert_eq!(<u16 as Scalar>::join(false, 65535), u16::MAX);
    assert_eq!(<isize as Scalar>::join(true, 7), -7);
}

#[test]
fn checked_sums_and_differences() {
    assert_eq!(checked_plus(&250u8, &5), Some(255));
    assert_eq!(checked_plus(&250u8, &6), None);
    assert_eq!(checked_plus(&-120i8, &-8), Some(-128));
    assert_eq!(checked_plus(&-120i8, &-9), None);
    assert_eq!(checked_minus(&5u8, &5), Some(0));
    assert_eq!(checked_minus(&5u8, &6), None);
    assert_eq!(checked_minus(&120i8, &-7), Some(127));
    assert_eq!(checked_minus(&120i8, &-8), None);
    assert_eq!(checked_minus(&i64::MIN, &i64::MIN), Some(0));
    assert_eq!(checked_plus(&(), &()), Some(()));
}
