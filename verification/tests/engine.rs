use rquant::engine::walk::{Walk, WalkStep};
use rquant::error::Error;
use std::collections::HashMap;

/// Runs a walk over `nodes` (node id to the goto it decides) and `leaves`.
fn run(root: &str, nodes: &HashMap<&str, &str>, leaves: &[&str]) -> (Vec<String>, Result<String, String>) {
    let mut w = Walk::new(root, nodes.len());
    let mut path = Vec::new();
    loop {
        let cur = w.current.clone();
        match w.step(leaves.contains(&cur.as_str()), nodes.contains_key(cur.as_str())) {
            WalkStep::AtLeaf(l) => return (path, Ok(l)),
            WalkStep::Fail(Error::Engine(m)) => return (path, Err(m)),
            WalkStep::Fail(e) => panic!("unexpected {e:?}"),
            WalkStep::Evaluate(n) => {
                path.push(n.clone());
                w = w.follow(nodes[n.as_str()].to_string());
            }
        }
    }
}

#[test]
fn walk_reaches_leaf_along_decisions() {
    let nodes = HashMap::from([("a", "b"), ("b", "leaf_l")]);
    let (path, r) = run("a", &nodes, &["leaf_l", "leaf_f"]);
    assert_eq!(path, vec!["a".to_string(), "b".to_string()]);
    assert_eq!(r, Ok("leaf_l".to_string()));
}

#[test]
fn walk_root_leaf_and_dangling() {
    let nodes = HashMap::from([("a", "nowhere")]);
    assert_eq!(run("leaf", &nodes, &["leaf"]).1, Ok("leaf".to_string()));
    assert_eq!(run("a", &nodes, &["leaf"]).1, Err("dangling node 'nowhere'".to_string()));
}

#[test]
fn walk_stops_cycles() {
    let nodes = HashMap::from([("a", "b"), ("b", "a")]);
    let (path, r) = run("a", &nodes, &["leaf"]);
    assert_eq!(path.len(), 4);
    assert_eq!(r, Err("traversal exceeded max steps (cycle?)".to_string()));
}
