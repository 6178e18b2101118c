use blast::community::{
    communities, community_count, densify, intern_all, next_level, place_names, Names, Rng,
};

fn names(list: &[&str]) -> Vec<String> {
    list.iter().map(|s| s.to_string()).collect()
}

fn pairs(list: &[(&str, &str)]) -> Vec<(String, String)> {
    list.iter().map(|(a, b)| (a.to_string(), b.to_string())).collect()
}

#[test]
fn the_generator_is_the_same_for_a_seed() {
    let mut rng = Rng::new(1);
    assert_eq!(rng.next(), 5180492295206395165);
    let mut zero = Rng::new(0);
    assert_eq!(zero.next(), 5180492295206395165);
    assert_ne!(rng.next(), 5180492295206395165);
}

#[test]
fn a_shuffle_keeps_the_items() {
    let mut items: Vec<usize> = (0..10).collect();
    let mut again = items.clone();
    Rng::new(42).shuffle(&mut items);
    Rng::new(42).shuffle(&mut again);
    assert_eq!(items, again);
    assert_ne!(items, (0..10).collect::<Vec<usize>>());
    items.sort();
    assert_eq!(items, (0..10).collect::<Vec<usize>>());
    let mut none: Vec<usize> = vec![];
    Rng::new(7).shuffle(&mut none);
    assert!(none.is_empty());
}

#[test]
fn labels_become_dense_in_the_order_seen() {
    assert_eq!(densify(&vec![7, 3, 7, 9, 3]), (vec![0, 1, 0, 2, 1], 3));
    assert_eq!(densify(&vec![]), (vec![], 0));
}

#[test]
fn a_level_carries_the_membership() {
    let moved = next_level(&vec![0, 1, 2, 2], &vec![5, 5, 8]);
    assert_eq!(moved, Some((vec![0, 0, 1, 1], vec![0, 0, 1], 2)));
    assert_eq!(next_level(&vec![0, 1], &vec![1, 0]), None);
}

#[test]
fn names_are_numbered_as_they_come() {
    let (all, ends) = intern_all(&pairs(&[("b", "a"), ("a", "c")]), &names(&["z", "a"]));
    assert_eq!(all, vec!["b", "a", "c", "z"]);
    assert_eq!(ends, vec![(0, 1), (1, 2)]);
    let mut table = Names::new();
    assert_eq!(table.intern("x"), 0);
    assert_eq!(table.intern("y"), 1);
    assert_eq!(table.intern("x"), 0);
}

#[test]
fn communities_are_sorted_and_the_largest_comes_first() {
    let all = names(&["d", "c", "b", "a", "e"]);
    let found = communities(&all, &vec![4, 2, 2, 4, 0]);
    assert_eq!(found, vec![names(&["a", "d"]), names(&["b", "c"]), names(&["e"])]);
    assert_eq!(communities(&all, &vec![1, 1, 1, 0, 1])[0].len(), 4);
    assert!(communities(&vec![], &vec![]).is_empty());
    assert_eq!(community_count(&vec![4, 2]), 5);
    assert_eq!(community_count(&vec![]), 0);
}

#[test]
fn edges_between_strangers_are_left_out() {
    let lists = vec![names(&["a", "b"]), names(&["c"])];
    let (labels, ends) = place_names(&pairs(&[("a", "c"), ("a", "x"), ("b", "b")]), &lists);
    assert_eq!(labels, vec![0, 0, 1]);
    assert_eq!(ends, vec![Some((0, 2)), None, Some((1, 1))]);
}
