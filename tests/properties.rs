use group_ops::aggregate::{aggregate, aggregate_group};
use group_ops::keymap::KeyMap;
use group_ops::ranges::{group_and_aggregate, Distinct, GroupBy};

fn sorted(mut v: Vec<i64>) -> Vec<i64> {
    v.sort();
    v
}

#[test]
fn partition_keeps_every_element_once() {
    let xs: Vec<i64> = vec![5, 3, 8, 3, 1, 9, 2, 8, 8, 0];
    let g = xs.clone().group_by(|x| *x % 4);
    let mut all: Vec<i64> = Vec::new();
    for i in 0..g.len() {
        all.extend(g.value_at(i).iter().copied());
    }
    assert_eq!(sorted(all), sorted(xs));
}

#[test]
fn each_element_in_group_of_its_key() {
    let xs: Vec<i64> = vec![11, 4, 7, 20, 3, 16];
    let g = xs.clone().group_by(|x| *x % 3);
    for x in &xs {
        assert!(g.get(&(x % 3)).unwrap().contains(x));
    }
    let keys: Vec<i64> = (0..g.len()).map(|i| *g.key_at(i)).collect();
    assert_eq!(keys, vec![2, 1, 0]);
}

#[test]
fn group_keeps_input_order() {
    let xs: Vec<i64> = vec![9, 1, 8, 2, 7, 3, 6];
    let g = xs.group_by(|x| *x % 2 == 0);
    assert_eq!(g.get(&false), Some(&vec![9, 1, 7, 3]));
    assert_eq!(g.get(&true), Some(&vec![8, 2, 6]));
}

#[test]
fn group_by_empty() {
    let xs: Vec<i64> = Vec::new();
    let g = xs.group_by(|x| *x);
    assert_eq!(g.len(), 0);
}

#[test]
fn group_by_equal_keys() {
    let xs: Vec<i64> = vec![4, 4, 4];
    let g = xs.group_by(|_x| 7u8);
    assert_eq!(g.len(), 1);
    assert_eq!(g.get(&7), Some(&vec![4, 4, 4]));
}

#[test]
fn distinct_twice_is_distinct_once() {
    let xs: Vec<i64> = vec![3, 1, 3, 2, 1, 5, 2];
    let once = xs.clone().distinct();
    let twice = once.clone().distinct();
    assert_eq!(once, vec![3, 1, 2, 5]);
    assert_eq!(twice, once);
    let mut uniq = xs.clone();
    uniq.sort();
    uniq.dedup();
    assert_eq!(once.len(), uniq.len());
}

#[test]
fn distinct_empty() {
    let xs: Vec<i64> = Vec::new();
    assert_eq!(xs.distinct(), Vec::<i64>::new());
}

fn total(g: &Vec<i64>) -> i64 {
    g.iter().sum()
}

fn count(g: &Vec<i64>) -> i64 {
    g.len() as i64
}

#[test]
fn aggregation_covers_every_key_and_name() {
    let mut aggrs: KeyMap<&str, fn(&Vec<i64>) -> i64> = KeyMap::new();
    aggrs.insert("total", total);
    aggrs.insert("count", count);
    let xs: Vec<i64> = vec![1, 2, 3, 4, 5, 6, 7];
    let r = group_and_aggregate(xs, |x| *x % 2, &aggrs);
    assert_eq!(r.len(), 2);
    let odd = r.get(&1).unwrap();
    assert_eq!(odd.len(), 2);
    assert_eq!(odd.get(&"total"), Some(&16));
    assert_eq!(odd.get(&"count"), Some(&4));
    let even = r.get(&0).unwrap();
    assert_eq!(even.get(&"total"), Some(&12));
    assert_eq!(even.get(&"count"), Some(&3));
    assert_eq!(even.get(&"mean"), None);
}

#[test]
fn aggregate_over_given_groups() {
    let mut aggrs: KeyMap<&str, fn(&Vec<i64>) -> i64> = KeyMap::new();
    aggrs.insert("total", total);
    let mut groups: KeyMap<char, Vec<i64>> = KeyMap::new();
    groups.push_to('a', 2);
    groups.push_to('b', 10);
    groups.push_to('a', 5);
    let one = aggregate_group(groups.get(&'a').unwrap(), &aggrs);
    assert_eq!(one.get(&"total"), Some(&7));
    let r = aggregate(groups, &aggrs);
    assert_eq!(r.get(&'a').unwrap().get(&"total"), Some(&7));
    assert_eq!(r.get(&'b').unwrap().get(&"total"), Some(&10));
}
