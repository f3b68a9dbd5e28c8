use cwc::graph::Graph;

#[test]
fn make_simple_graph() {
    let mut graph = Graph::new();
    graph.add_node(&2);
    graph.add_node(&1);
    graph.add_connection(&1, &2);
    assert_eq!(graph.node_count(), 2);
    assert_eq!(graph.index_of(&1), Some(1));
    assert_eq!(graph.index_of(&2), Some(0));
}

#[test]
fn graph_equal_simple() {
    let mut graph1 = Graph::new();
    let mut graph2 = Graph::new();

    graph1.add_node(&1);
    graph2.add_node(&1);

    graph1.add_node(&2);
    graph2.add_node(&2);

    graph1.add_connection(&1, &2);
    graph2.add_connection(&1, &2);

    assert_eq!(graph1, graph2);
}

#[test]
fn graph_equal_complex() {
    let mut graph1 = Graph::new();
    let mut graph2 = Graph::new();

    graph1.add_node(&1);
    graph1.add_node(&2);

    graph2.add_node(&2);
    graph2.add_node(&1);

    graph1.add_connection(&1, &2);
    graph1.add_connection(&2, &1);

    graph2.add_connection(&2, &1);
    graph2.add_connection(&1, &2);
}

#[test]
fn graph_unqual() {
    let mut graph1 = Graph::new();
    let mut graph2 = Graph::new();

    graph1.add_node(&1);
    graph2.add_node(&1);

    graph1.add_node(&2);
    graph2.add_node(&2);

    graph1.add_connection(&1, &2);
    graph2.add_connection(&2, &1);

    assert_ne!(graph1, graph2);
}

#[test]
fn topological_order_success() {
    let mut graph = Graph::new();
    graph.add_node(&1);
    graph.add_node(&2);
    graph.add_node(&3);

    graph.add_connection(&1, &2);
    graph.add_connection(&1, &3);
    graph.add_connection(&2, &3);

    assert_eq!(graph.topological_order(), Some(vec![1, 2, 3]));

    let mut graph = Graph::new();
    graph.add_node(&3);
    graph.add_node(&2);
    graph.add_node(&1);

    graph.add_connection(&1, &2);
    graph.add_connection(&2, &3);
    assert_eq!(graph.topological_order(), Some(vec![1, 2, 3]));
}

#[test]
fn topological_order_fail() {
    let mut graph = Graph::new();
    graph.add_node(&1);
    graph.add_node(&2);
    graph.add_node(&3);
    graph.add_connection(&1, &2);
    graph.add_connection(&2, &3);
    graph.add_connection(&3, &1);

    assert_eq!(graph.topological_order(), None);
}

#[test]
fn scc_dag_simple() {
    let mut parent = Graph::new();
    parent.add_node(&1);
    parent.add_node(&2);
    parent.add_node(&3);
    parent.add_connection(&1, &2);
    parent.add_connection(&2, &1);
    parent.add_connection(&2, &3);

    let dag = parent.scc_dag();

    let mut scc1 = Graph::new();
    scc1.add_node(&1);
    scc1.add_node(&2);
    scc1.add_connection(&1, &2);
    scc1.add_connection(&2, &1);

    let mut scc2 = Graph::new();
    scc2.add_node(&3);

    let mut target_dag = Graph::new();

    target_dag.add_node(&scc1);
    target_dag.add_node(&scc2);
    target_dag.add_connection(&scc1, &scc2);

    assert_eq!(dag, target_dag);
}

#[test]
fn scc_dag_of_a_chain_and_a_cycle() {
    // 1 -> 2 -> 3 -> 2, 4 alone
    let mut g = Graph::new();
    for v in [1, 2, 3, 4] {
        g.add_node(&v);
    }
    g.add_connection(&1, &2);
    g.add_connection(&2, &3);
    g.add_connection(&3, &2);
    let dag = g.scc_dag();
    assert_eq!(dag.node_count(), 3);

    let mut a = Graph::new();
    a.add_node(&1);
    let mut b = Graph::new();
    b.add_node(&2);
    b.add_node(&3);
    b.add_connection(&2, &3);
    b.add_connection(&3, &2);
    let mut c = Graph::new();
    c.add_node(&4);
    let mut expected = Graph::new();
    expected.add_node(&a);
    expected.add_node(&b);
    expected.add_node(&c);
    expected.add_connection(&a, &b);
    assert_eq!(dag, expected);
    let mut dag = dag;
    assert!(dag.topological_order().is_some());
}

#[test]
fn list_cycles_success_one_scc() {
    let mut graph = Graph::new();
    graph.add_node(&1);
    graph.add_node(&2);
    graph.add_node(&3);
    graph.add_connection(&1, &2);
    graph.add_connection(&2, &1);
    graph.add_connection(&1, &3);
    graph.add_connection(&3, &2);

    // Unique cycles
    // 1 -> 2 -> 1
    // 1 -> 3 -> 2 -> 1

    assert_ne!(graph.list_cycles(), None);
    assert_eq!(graph.list_cycles().unwrap().len(), 2);
}

#[test]
fn list_cycles_lists_each_cycle_once_from_its_first_node() {
    let mut graph = Graph::new();
    for v in [1, 2, 3] {
        graph.add_node(&v);
    }
    graph.add_connection(&1, &2);
    graph.add_connection(&2, &1);
    graph.add_connection(&1, &3);
    graph.add_connection(&3, &2);
    let mut cycles = graph.list_cycles().unwrap();
    cycles.sort();
    assert_eq!(cycles, vec![vec![1, 2], vec![1, 3, 2]]);
}

#[test]
fn list_cycles_of_acyclic_graph_and_self_loop() {
    let mut graph = Graph::new();
    graph.add_node(&1);
    graph.add_node(&2);
    graph.add_connection(&1, &2);
    assert_eq!(graph.list_cycles(), Some(vec![]));
    graph.add_connection(&2, &2);
    assert_eq!(graph.list_cycles(), Some(vec![vec![2]]));
}

#[test]
fn scc_dag_edge_into_a_finished_component() {
    let mut g = Graph::new();
    g.add_node(&1);
    g.add_node(&2);
    g.add_node(&3);
    g.add_connection(&1, &2);
    g.add_connection(&2, &1);
    g.add_connection(&3, &1);
    let mut a = Graph::new();
    a.add_node(&1);
    a.add_node(&2);
    a.add_connection(&1, &2);
    a.add_connection(&2, &1);
    let mut b = Graph::new();
    b.add_node(&3);
    let mut expected = Graph::new();
    expected.add_node(&a);
    expected.add_node(&b);
    expected.add_connection(&b, &a);
    assert_eq!(g.scc_dag(), expected);
}

#[test]
fn topological_order_is_kept_until_an_edge_is_added() {
    let mut g = Graph::new();
    g.add_node(&3);
    g.add_node(&1);
    g.add_node(&2);
    g.add_connection(&1, &2);
    let first = g.topological_order();
    assert!(first.is_some());
    assert_eq!(g.topological_order(), first);
    g.add_node(&4);
    let mut extended = first.clone().unwrap();
    extended.push(4);
    assert_eq!(g.topological_order(), Some(extended));
    g.add_connection(&2, &3);
    let order = g.topological_order().unwrap();
    let pos = |x: i32| order.iter().position(|y| *y == x).unwrap();
    assert!(pos(1) < pos(2) && pos(2) < pos(3));
}

#[test]
fn a_clone_is_equal_and_keeps_the_order() {
    let mut g = Graph::new();
    g.add_node(&2);
    g.add_node(&1);
    g.add_connection(&1, &2);
    let order = g.topological_order();
    let mut c = g.clone();
    assert_eq!(c, g);
    assert_eq!(c.index_of(&2), Some(0));
    assert_eq!(c.topological_order(), order);
}
