use network_flow::graph::Graph;

/// A small generator of numbers that look random.
struct Dice(u64);

impl Dice {
    fn roll(&mut self, sides: u64) -> u64 {
        self.0 = self.0.wrapping_mul(6364136223846793005).wrapping_add(1442695040888963407);
        (self.0 >> 33) % sides
    }
}

/// The arcs of a network with `n` vertices: tail, head, capacity, cost.
fn arcs(dice: &mut Dice, n: usize) -> Vec<(usize, usize, i64, i64)> {
    let count = 1 + dice.roll(12) as usize;
    let mut list = vec![];
    for _ in 0..count {
        let from = dice.roll(n as u64) as usize;
        let to = dice.roll(n as u64) as usize;
        if from != to {
            list.push((from, to, dice.roll(6) as i64, dice.roll(6) as i64));
        }
    }
    list
}

/// The value and the cost of a cheapest maximum flow, by shortest
/// augmenting paths over a table of residual arcs.
fn by_hand(n: usize, list: &[(usize, usize, i64, i64)], s: usize, t: usize) -> (i64, i64) {
    // residual arcs: tail, head, capacity, cost
    let mut res: Vec<(usize, usize, i64, i64)> = vec![];
    for (from, to, cap, cost) in list {
        res.push((*from, *to, *cap, *cost));
        res.push((*to, *from, 0, -*cost));
    }
    let (mut value, mut total) = (0, 0);
    loop {
        let mut dist = vec![i64::MAX; n];
        let mut by = vec![usize::MAX; n];
        dist[s] = 0;
        for _ in 0..n {
            for (i, (from, to, cap, cost)) in res.iter().enumerate() {
                if *cap > 0 && dist[*from] != i64::MAX && dist[*from] + cost < dist[*to] {
                    dist[*to] = dist[*from] + cost;
                    by[*to] = i;
                }
            }
        }
        if dist[t] == i64::MAX {
            return (value, total);
        }
        let mut push = i64::MAX;
        let mut v = t;
        while v != s {
            push = push.min(res[by[v]].2);
            v = res[by[v]].0;
        }
        let mut v = t;
        while v != s {
            let i = by[v];
            res[i].2 -= push;
            res[i ^ 1].2 += push;
            total += push * res[i].3;
            v = res[i].0;
        }
        value += push;
    }
}

#[test]
fn max_flow_as_by_hand() {
    let mut dice = Dice(7);
    for round in 0..300 {
        let n = 2 + dice.roll(5) as usize;
        let list = arcs(&mut dice, n);
        let mut g = Graph::<usize, i64>::create_graph(&vec![0; n]);
        for (from, to, cap, _) in &list {
            g.add_edge(*from, *to, cap);
        }
        let want = by_hand(n, &list, 0, n - 1).0;
        assert_eq!(g.checked_max_flow(0, n - 1), Some(want), "round {}", round);
        assert!(g.is_wf());
        let side = g.get_cut(0);
        let mut cut = 0;
        for (from, to, cap, _) in &list {
            if side.contains(from) && !side.contains(to) {
                cut += cap;
            }
        }
        assert_eq!(cut, want, "round {}", round);
    }
}

#[test]
fn min_cost_flow_as_by_hand() {
    let mut dice = Dice(11);
    for round in 0..300 {
        let n = 2 + dice.roll(5) as usize;
        let list = arcs(&mut dice, n);
        let mut g = Graph::<usize, i64, i64>::create_graph(&vec![0; n]);
        for (from, to, cap, cost) in &list {
            g.add_edge2(*from, *to, cap, cost);
        }
        let want = by_hand(n, &list, 0, n - 1);
        assert_eq!(g.checked_mcmf(0, n - 1), Some(want), "round {}", round);
        assert!(g.is_wf());
    }
}

#[test]
fn saved_and_loaded_as_before() {
    let mut dice = Dice(13);
    for round in 0..100 {
        let n = 2 + dice.roll(5) as usize;
        let list = arcs(&mut dice, n);
        let mut g = Graph::<usize, i64, i64>::create_graph(&vec![0; n]);
        for (from, to, cap, cost) in &list {
            g.add_edge2(*from, *to, cap, cost);
        }
        g.checked_mcmf(0, n - 1);
        let bytes = g.to_bytes();
        let h = Graph::<usize, i64, i64>::try_from_bytes(&bytes).unwrap();
        assert_eq!(h.to_bytes(), bytes, "round {}", round);
        let text = g.to_dot_text("g");
        let k = Graph::<usize, i64, i64>::from_dot_text(&text).unwrap();
        assert_eq!(k.to_bytes(), bytes, "round {}", round);
    }
}

/// The arcs of a larger network with `n` vertices.
fn many_arcs(dice: &mut Dice, n: usize, count: usize) -> Vec<(usize, usize, i64, i64)> {
    let mut list = vec![];
    for _ in 0..count {
        let from = dice.roll(n as u64) as usize;
        let to = dice.roll(n as u64) as usize;
        if from != to {
            list.push((from, to, 1 + dice.roll(20) as i64, dice.roll(20) as i64));
        }
    }
    list
}

#[test]
fn larger_networks_as_by_hand() {
    let mut dice = Dice(17);
    for round in 0..5 {
        let n = 40;
        let list = many_arcs(&mut dice, n, 240);
        let mut g = Graph::<usize, i64, i64>::create_graph(&vec![0; n]);
        let mut h = Graph::<usize, i64, i64>::create_graph(&vec![0; n]);
        for (from, to, cap, cost) in &list {
            g.add_edge2(*from, *to, cap, cost);
            h.add_edge2(*from, *to, cap, cost);
        }
        let want = by_hand(n, &list, 0, n - 1);
        assert_eq!(g.checked_max_flow(0, n - 1), Some(want.0), "round {}", round);
        assert_eq!(h.checked_mcmf(0, n - 1), Some(want), "round {}", round);
    }
}
