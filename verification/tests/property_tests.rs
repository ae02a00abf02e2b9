//! Concrete instances of the general properties the library states.

use bkstring::bkdist::{hex_ham_dist, jac_dist, jaro_dist, l_dist, mod_j_dist};
use bkstring::bkgraph::BkGraph;
use bkstring::bktree::BkTree;
use bkstring::dist::Levenshtein;
use bkstring::metric::Metric;
use bkstring::word_function::{word_ngrams, words};

fn chars(s: &str) -> Vec<char> {
    s.chars().collect()
}

// Every entry added to a tree is found by a radius-zero search for it.
#[test]
fn added_entries_found_at_radius_zero() {
    let mut b: BkTree<Vec<char>, Levenshtein> = BkTree::new(None);
    let entries = ["wander", "wonder", "winder", "thunder", "under"];
    for e in entries.iter() {
        b.add(e.chars().collect());
    }
    for e in entries.iter() {
        let found = b.search(e.chars().collect(), 0);
        assert!(found.contains(&e.chars().collect()));
        assert_eq!(found.len(), 1);
    }
}

// An entry never added is not found at radius zero when nothing sits at
// distance zero of it.
#[test]
fn absent_entry_not_found_at_radius_zero() {
    let mut b: BkTree<Vec<char>, Levenshtein> = BkTree::new(None);
    b.add(chars("wander"));
    b.add(chars("wonder"));
    assert!(b.search(chars("winder"), 0).is_empty());
}

// Growing the radius never loses a result.
#[test]
fn radius_growth_keeps_results() {
    let mut b: BkTree<Vec<char>, Levenshtein> = BkTree::new(None);
    for e in ["cat", "cart", "card", "carp", "dart", "dog"].iter() {
        b.add(e.chars().collect());
    }
    let mut previous: Vec<Vec<char>> = Vec::new();
    for radius in 0..5 {
        let found = b.search(chars("cart"), radius);
        for w in previous.iter() {
            assert!(found.contains(w));
        }
        previous = found;
    }
}

// A single-bucket graph under the edit metric searches as the plain
// tree does when the query lies in the bucket.
#[test]
fn single_bucket_graph_matches_tree() {
    let entries = ["cat", "car", "cot", "dog", "fig"];
    let mut g = BkGraph::new(None);
    let mut t: BkTree<String, Metric> = BkTree::new(Some(Metric::l_dist()));
    for e in entries.iter() {
        g.add(e.to_string());
        t.add(e.to_string());
    }
    for radius in 0..3 {
        let mut from_graph = g.search("cat".to_string(), radius);
        let mut from_tree = t.search("cat".to_string(), radius);
        from_graph.sort();
        from_tree.sort();
        assert_eq!(from_graph, from_tree);
    }
}

// Symmetry of the five named metrics on sample pairs.
#[test]
fn metric_symmetry_samples() {
    let pairs = [("kitten", "sitting"), ("flaw", "lawn"), ("", "word"), ("same", "same")];
    for (a, b) in pairs.iter() {
        assert_eq!(
            l_dist(a.to_string(), b.to_string()),
            l_dist(b.to_string(), a.to_string())
        );
        assert_eq!(
            jac_dist(a.to_string(), b.to_string()),
            jac_dist(b.to_string(), a.to_string())
        );
        assert_eq!(
            mod_j_dist(a.to_string(), b.to_string()),
            mod_j_dist(b.to_string(), a.to_string())
        );
        assert_eq!(
            hex_ham_dist(a.to_string(), b.to_string()),
            hex_ham_dist(b.to_string(), a.to_string())
        );
        assert_eq!(
            jaro_dist(a.to_string(), b.to_string()),
            jaro_dist(b.to_string(), a.to_string())
        );
    }
}

// The tree absorbs duplicates: a zero-distance entry is stored once.
#[test]
fn duplicate_entries_absorbed() {
    let mut b: BkTree<Vec<char>, Levenshtein> = BkTree::new(None);
    b.add(chars("echo"));
    b.add(chars("echo"));
    b.add(chars("ohce"));
    let found = b.search(chars("echo"), 0);
    assert_eq!(found.len(), 1);
}

// Sentence splitting drops empty fields; bigram extraction keeps them.
#[test]
fn sentence_splitting_edges() {
    let w = words("  fat  lazy cat ".to_string());
    assert_eq!(w, vec!["fat".to_string(), "lazy".to_string(), "cat".to_string()]);
    assert_eq!(words("".to_string()), Vec::<String>::new());

    let pairs = word_ngrams("fat lazy cat".to_string(), 2);
    assert_eq!(pairs, vec!["fat lazy".to_string(), "lazy cat".to_string()]);
    assert_eq!(word_ngrams("solo".to_string(), 2), Vec::<String>::new());
}

// The graph routes entries of different lengths to different buckets
// and still finds them across buckets.
#[test]
fn graph_search_spans_buckets() {
    let mut g = BkGraph::new(None);
    g.add_list(vec!["foo".to_string(), "food".to_string(), "foe".to_string()]);
    let found = g.search("foo".to_string(), 1);
    assert!(found.contains(&"foo".to_string()));
    assert!(found.contains(&"food".to_string()));
    assert!(found.contains(&"foe".to_string()));
    assert!(g.search("xyzzy".to_string(), 0).is_empty());
}

// The word metrics bucket by field count.
#[test]
fn word_metric_graph() {
    let mut g = BkGraph::new(Some(Metric::word_l_dist()));
    g.add("fat lazy cat".to_string());
    g.add("fat lazy dog".to_string());
    let found = g.search("fat lazy cat".to_string(), 1);
    assert!(found.contains(&"fat lazy cat".to_string()));
    assert!(found.contains(&"fat lazy dog".to_string()));
}
