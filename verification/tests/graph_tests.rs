use aether_vm::graph::{create_graph, get_graph, graph_index, GraphRegistry, PropertyGraph};
use aether_vm::strmap::StrMap;
use aether_vm::value::Value;

fn props() -> StrMap<Value> {
    StrMap::new()
}

/// 1 -> 2, 1 -> 3, 2 -> 4, 3 -> 4, 4 -> 1, and an isolated node 5.
fn sample() -> PropertyGraph {
    let mut g = PropertyGraph::new(1, "g".to_string());
    for label in ["a", "b", "c", "d", "e"] {
        g.add_node(label, props());
    }
    for (f, t) in [(1, 2), (1, 3), (2, 4), (3, 4), (4, 1)] {
        g.add_edge(f, t, "e", props()).unwrap();
    }
    g
}

#[test]
fn nodes_and_edges_get_increasing_ids() {
    let mut g = PropertyGraph::new(7, "people".to_string());
    let mut p = StrMap::new();
    p.insert("age".to_string(), Value::Int(30));
    assert_eq!(g.add_node("person", p), 1);
    assert_eq!(g.add_node("person", props()), 2);
    assert_eq!(g.add_edge(1, 2, "knows", props()), Ok(1));
    assert_eq!(g.add_edge(2, 1, "knows", props()), Ok(2));
    assert_eq!(g.nodes.get(&1).unwrap().label, "person");
    assert!(matches!(g.nodes.get(&1).unwrap().properties.get(&"age".to_string()), Some(Value::Int(30))));
    assert_eq!(g.edges.get(&2).unwrap().from, 2);
    assert_eq!(g.edges.get(&2).unwrap().to, 1);
}

#[test]
fn edges_need_both_nodes() {
    let mut g = sample();
    assert_eq!(g.add_edge(9, 1, "x", props()), Err("AetherGraph: Node 9 does not exist".to_string()));
    assert_eq!(g.add_edge(1, 12, "x", props()), Err("AetherGraph: Node 12 does not exist".to_string()));
    assert_eq!(g.add_edge(8, 12, "x", props()), Err("AetherGraph: Node 8 does not exist".to_string()));
    assert_eq!(g.edges.len(), 5);
}

#[test]
fn neighbors_by_direction() {
    let g = sample();
    assert_eq!(g.neighbors(1, "outgoing"), vec![2, 3]);
    assert_eq!(g.neighbors(4, "incoming"), vec![2, 3]);
    assert_eq!(g.neighbors(1, "both"), vec![2, 3, 4]);
    assert_eq!(g.neighbors(1, "sideways"), Vec::<u64>::new());
    assert_eq!(g.neighbors(5, "both"), Vec::<u64>::new());
    assert_eq!(g.neighbors(42, "outgoing"), Vec::<u64>::new());
}

#[test]
fn adding_an_edge_extends_neighbors() {
    let mut g = sample();
    g.add_edge(1, 5, "late", props()).unwrap();
    assert_eq!(g.neighbors(1, "outgoing"), vec![2, 3, 5]);
    assert_eq!(g.neighbors(5, "incoming"), vec![1]);
}

#[test]
fn breadth_first_order() {
    let g = sample();
    assert_eq!(g.bfs(1, 10), vec![1, 2, 3, 4]);
    assert_eq!(g.bfs(1, 1), vec![1, 2, 3]);
    assert_eq!(g.bfs(1, 0), vec![1]);
    assert_eq!(g.bfs(4, 2), vec![4, 1, 2, 3]);
    assert_eq!(g.bfs(5, 3), vec![5]);
    assert_eq!(g.bfs(99, 3), Vec::<u64>::new());
}

#[test]
fn depth_first_order() {
    let g = sample();
    assert_eq!(g.dfs(1, 10), vec![1, 2, 4, 3]);
    assert_eq!(g.dfs(1, 1), vec![1, 2, 3]);
    assert_eq!(g.dfs(1, 0), vec![1]);
    assert_eq!(g.dfs(3, 2), vec![3, 4, 1]);
    assert_eq!(g.dfs(99, 3), Vec::<u64>::new());
}

#[test]
fn graphs_in_registry() {
    let mut reg = GraphRegistry::new();
    assert_eq!(create_graph(&mut reg, "social"), 1);
    assert_eq!(create_graph(&mut reg, "roads"), 2);
    assert_eq!(get_graph(&reg, 2).unwrap().name, "roads");
    assert_eq!(graph_index(&reg, 1), Some(0));
    assert_eq!(get_graph(&reg, 3).err(), Some("AetherGraph: Graph 3 not found".to_string()));
    let i = graph_index(&reg, 1).unwrap();
    reg.graphs[i].add_node("x", StrMap::new());
    assert_eq!(get_graph(&reg, 1).unwrap().nodes.len(), 1);
}
