use parmake::graph::TargetGraph;
use parmake::json::graph_to_json;

fn simple() -> TargetGraph {
    let mut g = TargetGraph::new();
    assert!(g.add_target("A".to_owned(), vec!["B".to_owned(), "C".to_owned()]));
    assert!(g.add_target("B".to_owned(), vec![]));
    assert!(g.add_target("C".to_owned(), vec![]));
    g
}

#[test]
fn print_graph_exact_text() {
    let g = simple();
    assert_eq!(graph_to_json(&g), "{\"A\":[\"B\",\"C\"],\"B\":[],\"C\":[]}");
}

#[test]
fn print_graph_empty() {
    let g = TargetGraph::new();
    assert_eq!(graph_to_json(&g), "{}");
}

#[test]
fn printed_graph_is_valid_json_with_expected_members() {
    let g = simple();
    let text = graph_to_json(&g);
    let v: serde_json::Value = serde_json::from_str(&text).unwrap();
    let obj = v.as_object().unwrap();
    assert_eq!(obj.len(), 3);
    let a = obj.get("A").unwrap().as_array().unwrap();
    assert_eq!(a.len(), 2);
    assert_eq!(a[0].as_str().unwrap(), "B");
    assert_eq!(a[1].as_str().unwrap(), "C");
    assert!(obj.get("B").unwrap().as_array().unwrap().is_empty());
    assert!(obj.get("C").unwrap().as_array().unwrap().is_empty());
}

#[test]
fn names_are_escaped() {
    let mut g = TargetGraph::new();
    let odd = "we\"ird\\name\nwith\tstuff\u{1}".to_owned();
    assert!(g.add_target(odd.clone(), vec![]));
    let text = graph_to_json(&g);
    assert_eq!(
        text,
        "{\"we\\\"ird\\\\name\\nwith\\tstuff\\u0001\":[]}"
    );
    let v: serde_json::Value = serde_json::from_str(&text).unwrap();
    let obj = v.as_object().unwrap();
    assert!(obj.contains_key(&odd));
}
