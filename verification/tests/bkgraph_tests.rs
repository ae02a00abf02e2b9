//! The sharded graph over length buckets.

use bkstring::bkgraph::BkGraph;

#[test]
fn test_add() {
    let mut b = BkGraph::new(None);
    b.add("foo".to_string());
}

#[test]
fn test_all() {
    let mut b = BkGraph::new(None);
    b.add("foo".to_string());
    assert_eq!(b.search("foo".to_string(), 0)[0], "foo".to_string());
}

#[test]
fn test_add_list() {
    let mut b = BkGraph::new(None);
    let list = vec!["foo".to_string(), "bar".to_string()];
    b.add_list(list);
}

#[test]
fn test_var_search() {
    let mut b = BkGraph::new(None);
    b.add("foo".to_string());
    assert!(!b.variance_search("f".to_string(), 3, 1).contains(&"foo".to_string()));
    assert!(b.variance_search("f".to_string(), 0, 3).contains(&"foo".to_string()));
}
