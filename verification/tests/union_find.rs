use chain_clusterizer::error::EofError;
use chain_clusterizer::visitors::clusterizer::DisjointSet;

fn set_of(items: &[&str]) -> DisjointSet {
    let mut set = DisjointSet::new();
    for item in items {
        set.make_set(item.to_string());
    }
    set
}

fn partition(set: &mut DisjointSet, items: &[&str]) -> Vec<Vec<bool>> {
    let mut roots = Vec::new();
    for item in items {
        roots.push(set.find(item).unwrap());
    }
    roots.iter().map(|a| roots.iter().map(|b| a == b).collect()).collect()
}

#[test]
fn new_set_is_empty() {
    let mut set = DisjointSet::new();
    assert_eq!(set.size(), 0);
    assert_eq!(set.find("a"), None);
}

#[test]
fn make_set_assigns_dense_tags() {
    let mut set = set_of(&["a", "b", "c"]);
    assert_eq!(set.size(), 3);
    assert_eq!(set.find("a"), Some(0));
    assert_eq!(set.find("b"), Some(1));
    assert_eq!(set.find("c"), Some(2));
    assert_eq!(set.item(1), "b");
}

#[test]
fn make_set_is_idempotent() {
    let mut set = set_of(&["a", "b"]);
    set.union("a", "b").unwrap();
    let root = set.find("a");
    set.make_set("a".to_string());
    set.make_set("b".to_string());
    assert_eq!(set.size(), 2);
    assert_eq!(set.find("a"), root);
    assert_eq!(set.find("b"), root);
}

#[test]
fn find_after_make_set_is_stable() {
    let mut set = set_of(&["x", "y"]);
    set.make_set("z".to_string());
    let first = set.find("z");
    let second = set.find("z");
    assert_eq!(first, Some(2));
    assert_eq!(first, second);
}

#[test]
fn find_of_unknown_is_none() {
    let mut set = set_of(&["a"]);
    assert_eq!(set.find("b"), None);
    assert_eq!(set.size(), 1);
}

#[test]
fn union_of_unknown_is_error() {
    let mut set = set_of(&["a"]);
    assert_eq!(set.union("a", "b"), Err(EofError));
    assert_eq!(set.union("b", "a"), Err(EofError));
    assert_eq!(set.union("b", "c"), Err(EofError));
    assert_eq!(set.find("a"), Some(0));
}

#[test]
fn union_on_tie_puts_first_under_second() {
    let mut set = set_of(&["a", "b"]);
    assert_eq!(set.union("a", "b"), Ok(1));
    assert_eq!(set.find("a"), Some(1));
    assert_eq!(set.find("b"), Some(1));
}

#[test]
fn union_puts_lower_rank_under_higher() {
    let mut set = set_of(&["a", "b", "c"]);
    assert_eq!(set.union("a", "b"), Ok(1));
    // The tree of b has rank one, that of c rank zero.
    assert_eq!(set.union("b", "c"), Ok(1));
    assert_eq!(set.find("c"), Some(1));
    let mut set = set_of(&["a", "b", "c"]);
    assert_eq!(set.union("a", "b"), Ok(1));
    assert_eq!(set.union("c", "a"), Ok(1));
    assert_eq!(set.find("c"), Some(1));
}

#[test]
fn union_of_one_cluster_returns_its_root() {
    let mut set = set_of(&["a", "b"]);
    assert_eq!(set.union("a", "a"), Ok(0));
    assert_eq!(set.union("a", "b"), Ok(1));
    assert_eq!(set.union("a", "b"), Ok(1));
    assert_eq!(set.union("b", "a"), Ok(1));
}

#[test]
fn find_compresses_the_path() {
    let mut set = set_of(&["a", "b", "c", "d"]);
    set.union("a", "b").unwrap(); // a -> b
    set.union("c", "d").unwrap(); // c -> d
    set.union("b", "d").unwrap(); // b -> d, a -> b -> d
    assert_eq!(set.parent(0), 1);
    assert_eq!(set.find("a"), Some(3));
    assert_eq!(set.parent(0), 3);
    assert_eq!(set.parent(1), 3);
}

#[test]
fn finalize_points_every_item_at_its_root() {
    let mut set = set_of(&["a", "b", "c", "d", "e"]);
    set.union("a", "b").unwrap();
    set.union("c", "d").unwrap();
    set.union("b", "d").unwrap();
    assert_eq!(set.parent(0), 1);
    set.finalize();
    for tag in 0..4 {
        assert_eq!(set.parent(tag), 3);
    }
    assert_eq!(set.parent(4), 4);
    assert_eq!(set.size(), 5);
}

#[test]
fn union_order_does_not_change_the_partition() {
    let items = ["a", "b", "c", "d", "e", "f"];
    let pairs = [("a", "b"), ("c", "d"), ("b", "c"), ("e", "e")];
    let orders: [[usize; 4]; 4] = [[0, 1, 2, 3], [3, 2, 1, 0], [2, 0, 3, 1], [1, 3, 0, 2]];
    let mut expected: Option<Vec<Vec<bool>>> = None;
    for order in orders {
        let mut set = set_of(&items);
        for k in order {
            set.union(pairs[k].0, pairs[k].1).unwrap();
        }
        let got = partition(&mut set, &items);
        match &expected {
            None => expected = Some(got),
            Some(e) => assert_eq!(&got, e),
        }
    }
    let e = expected.unwrap();
    // a, b, c, d are one class; e and f are alone.
    assert!(e[0][1] && e[0][2] && e[0][3]);
    assert!(!e[0][4] && !e[0][5] && !e[4][5]);
}

#[test]
fn with_capacity_starts_empty() {
    let mut set = DisjointSet::with_capacity(4);
    assert_eq!(set.size(), 0);
    set.make_set("only".to_string());
    assert_eq!(set.find("only"), Some(0));
}
