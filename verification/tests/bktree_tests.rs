//! The metric tree over symbol vectors and over strings.

use bkstring::bktree::BkTree;
use bkstring::dist::{Hamming, Jaccard, Levenshtein, ModifiedJaccard};
use bkstring::metric::Metric;

fn chars(s: &str) -> Vec<char> {
    s.chars().collect()
}

#[test]
fn bktree_add_list_test() {
    let mut b: BkTree<Vec<char>, Levenshtein> = BkTree::new(None);
    let list = vec![chars("foo"), chars("bar"), chars("baz")];

    b.add_list(list);
    let test1: Vec<char> = chars("foo");
    let test2: Vec<char> = chars("bar");
    let test3: Vec<char> = chars("baz");

    assert_eq!(b._root.word, test1);
    assert_eq!(b._root.children[0].word, test2);
    assert_eq!(b._root.children[0].children[0].word, test3);
}

#[test]
fn bktree_search_test() {
    let mut b: BkTree<Vec<char>, Levenshtein> = BkTree::new(None);

    b.add(chars("foo"));
    b.add(chars("food"));
    b.add(chars("foodb"));
    b.add(chars("foodc"));
    b.add(chars("foodd"));
    b.add(chars("foe"));
    b.add(chars("fooda"));

    {
        let list = b.search(chars("foo"), 0);

        assert!(list.contains(&chars("foo")));
        assert!(!list.contains(&chars("food")));
        assert!(!list.contains(&chars("fooda")));
        assert!(!list.contains(&chars("foe")));
    }

    {
        let list = b.search(chars("foo"), 1);

        assert!(list.contains(&chars("foo")));
        assert!(list.contains(&chars("foe")));
        assert!(!list.contains(&chars("fooda")));
    }

    {
        let list = b.search(chars("foo"), 2);

        assert!(list.contains(&chars("foo")));
        assert!(list.contains(&chars("fooda")));
        assert!(list.contains(&chars("foodb")));
        assert!(list.contains(&chars("foodc")));
        assert!(list.contains(&chars("foodd")));
        assert!(list.contains(&chars("foe")));
    }

    {
        let list = b.search(chars("bar"), 1);
        println!("{:?}", list);

        assert!(list.is_empty());
    }
}

#[test]
fn default_dist_add_test() {
    let mut b: BkTree<Vec<char>, Levenshtein> = BkTree::new(None);

    let test1: Vec<char> = chars("foo");
    b.add(test1.to_owned());
    assert_eq!(b._root.word, test1.to_owned());

    let test2: Vec<char> = chars("bar");
    b.add(test2.to_owned());
    assert_eq!(b._root.children[0].word, test2.to_owned());
}

#[test]
fn jaccard_dist_add_test() {
    let mut b: BkTree<Vec<char>, Jaccard> = BkTree::new(Some(Jaccard));

    let test1: Vec<char> = chars("foo");

    b.add(test1.to_owned());
    assert_eq!(b._root.word, test1.to_owned());

    let test2: Vec<char> = chars("bar");

    b.add(test2.to_owned());
    assert_eq!(b._root.children[0].word, test2.to_owned());
}

#[test]
fn modified_jaccard_dist_add_test() {
    let mut b: BkTree<Vec<char>, ModifiedJaccard> = BkTree::new(Some(ModifiedJaccard));

    let test1: Vec<char> = chars("foo");

    b.add(test1.to_owned());
    assert_eq!(b._root.word, test1.to_owned());

    let test2: Vec<char> = chars("bar");

    b.add(test2.to_owned());
    assert_eq!(b._root.children[0].word, test2.to_owned());
}

#[test]
fn hamming_dist_add_test() {
    let mut b: BkTree<Vec<char>, Hamming> = BkTree::new(Some(Hamming));

    let test1: Vec<char> = chars("0");

    b.add(test1.to_owned());
    assert_eq!(b._root.word, test1.to_owned());

    let test2: Vec<char> = chars("f");

    b.add(test2.to_owned());
    assert_eq!(b._root.children[0].word, test2.to_owned());
}

#[test]
fn bkstring_search_test() {
    let mut b: BkTree<String, Metric> = BkTree::new(None);

    b.add("foo".to_string());
    b.add("food".to_string());
    b.add("foe".to_string());

    {
        let list = b.search("foo".to_string(), 0);

        assert!(list.contains(&"foo".to_string()));
    }

    {
        let list = b.search("foo".to_string(), 1);

        assert!(list.contains(&"foo".to_string()));
        assert!(list.contains(&"food".to_string()));
        assert!(list.contains(&"foe".to_string()));
    }

    {
        let list = b.search("bar".to_string(), 1);

        assert!(list.is_empty());
    }
}
