use network_flow::graph::dot::{edge_label, parse_edge_label, DotEnd, DotGraph, DotStmt};
use network_flow::graph::Graph;

fn small() -> Graph<usize, u32, u32> {
    let mut g = Graph::<usize, u32, u32>::new();
    for i in 0..6 {
        g.add_node(&i);
    }
    g.add_edge(0, 1, &10);
    g.add_edge(0, 2, &3);
    g.add_edge(1, 2, &2);
    g.add_edge(1, 3, &5);
    g.add_edge(2, 4, &7);
    g.add_edge(3, 4, &1);
    g.add_edge(3, 5, &3);
    g.add_edge(4, 5, &9);
    g
}

#[test]
fn edge_label_text() {
    assert_eq!(edge_label(&3u32, &10u32, &-7i64), b"\"3/10,-7\"".to_vec());
    assert_eq!(edge_label(&0u8, &0u8, &0u8), b"\"0/0,0\"".to_vec());
}

#[test]
fn edge_label_back() {
    let got = parse_edge_label::<u32, i64>(b"\"3/10,-7\"");
    assert_eq!(got, Some((3u32, 10u32, -7i64)));
    assert_eq!(parse_edge_label::<u32, i64>(b"\"3/10,-7"), None);
    assert_eq!(parse_edge_label::<u32, i64>(b"\"03/10,7\""), None);
    assert_eq!(parse_edge_label::<u8, i64>(b"\"3/256,7\""), None);
    assert_eq!(parse_edge_label::<u32, u32>(b"\"3/10,-0\""), None);
}

#[test]
fn dot_text_of_a_graph() {
    let g = small();
    let text = g.to_dot_text("flow");
    assert!(text.starts_with("digraph flow {"));
    assert!(text.contains("0[label=0]"));
    assert!(text.contains("0 -> 1 [label=\"0/10,0\"]"));
}

#[test]
fn dot_round_trip() {
    let mut g = small();
    assert_eq!(g.get_max_flow(0, 5), 9);
    let text = g.to_dot_text("flow");
    let mut h = Graph::<usize, u32, u32>::from_dot_text(&text).unwrap();
    assert_eq!(h.get_cut(0), g.get_cut(0));
    assert_eq!(h.to_dot_text("flow"), text);
    assert_eq!(h.get_max_flow(0, 5), 0);
}

#[test]
fn dot_rejects() {
    assert!(Graph::<usize, u32, u32>::from_dot_text("digraph g { 0[label=0]; 0 -> 0 [label=\"0/1,0\"] }").is_none());
    assert!(Graph::<usize, u32, u32>::from_dot_text("digraph g { 0[label=0]; 0 -> 1 [label=\"0/1,0\"] }").is_none());
    assert!(Graph::<usize, u32, u32>::from_dot_text("graph g { 0[label=0] }").is_none());
    assert!(Graph::<usize, u32, u32>::from_dot_text("digraph g { 0[label=0]; 1[label=1]; 0 -> 1 [label=\"2/1,0\"] }").is_none());
    assert!(Graph::<usize, u32, u32>::from_dot_text("not a graph").is_none());
}

#[test]
fn dot_rejects_a_chain() {
    let text = "digraph g { 0[label=0]; 1[label=1]; 2[label=2]; 0 -> 1 -> 2 [label=\"0/1,0\"] }";
    assert!(Graph::<usize, u32, u32>::from_dot_text(text).is_none());
    let pair = "digraph g { 0[label=0]; 1[label=1]; 2[label=2]; 0 -> 1 [label=\"0/1,0\"] }";
    assert!(Graph::<usize, u32, u32>::from_dot_text(pair).is_some());
}

fn node(id: &str, label: &str) -> DotStmt {
    DotStmt::Node { id: id.to_owned(), attrs: vec![("label".to_owned(), label.to_owned())] }
}

fn edge(from: DotEnd, to: DotEnd, label: &str) -> DotStmt {
    DotStmt::Edge { from, to, attrs: vec![("label".to_owned(), label.to_owned())] }
}

#[test]
fn dot_graph_read() {
    let stmts = vec![
        node("0", "4"),
        DotStmt::Other,
        node("1", "5"),
        edge(DotEnd::Node("0".to_owned()), DotEnd::Node("1".to_owned()), "\"1/3,2\""),
    ];
    let g = DotGraph { name: "g".to_owned(), directed: true, stmts };
    let mut h = Graph::<usize, u32, u32>::from_dot_graph(&g);
    assert_eq!(h.get_label(1), Some(&5));
    assert_eq!(h.get_max_flow(0, 1), 2);
    let mut k = Graph::<usize, u32, u32>::try_from_dot_graph(&g).unwrap();
    assert_eq!(k.get_max_flow(1, 0), 1);
}

#[test]
fn dot_graph_rejected() {
    let ends = |a: &str, b: &str| (DotEnd::Node(a.to_owned()), DotEnd::Node(b.to_owned()));
    let read = |directed: bool, stmts: Vec<DotStmt>| {
        Graph::<usize, u32, u32>::try_from_dot_graph(&DotGraph { name: String::new(), directed, stmts })
    };
    assert!(read(true, vec![node("0", "0"), node("1", "1")]).is_some());
    assert!(read(false, vec![node("0", "0"), node("1", "1")]).is_none());
    let (a, b) = ends("0", "1");
    assert!(read(true, vec![node("0", "0"), edge(a, b, "\"0/1,0\"")]).is_none());
    let (a, _) = ends("0", "1");
    assert!(read(true, vec![node("0", "0"), node("1", "1"), edge(a, DotEnd::Other, "\"0/1,0\"")]).is_none());
    assert!(read(true, vec![node("0", "0"), node("1", "1"), edge(DotEnd::Other, DotEnd::Other, "\"0/1,0\"")]).is_none());
    assert!(read(true, vec![DotStmt::Node { id: "0".to_owned(), attrs: vec![] }]).is_none());
    assert!(read(true, vec![node("0", "x")]).is_none());
}

#[test]
fn dot_text_read() {
    let text = "digraph g { 0[label=0]; 1[label=1]; 0 -> 1 [label=\"1/3,2\"] }";
    let mut h = Graph::<usize, u32, u32>::from_dot_text(text).unwrap();
    assert_eq!(h.get_cut(0), vec![0, 1]);
    assert_eq!(h.mcmf(0, 1), (2, 4));
    let g = small();
    let k = Graph::<usize, u32, u32>::from_dot_text(&g.to_dot_text("flow")).unwrap();
    assert_eq!(k.to_bytes(), g.to_bytes());
}
