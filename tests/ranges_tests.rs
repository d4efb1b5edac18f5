use group_ops::keymap::KeyMap;
use group_ops::ranges::{Distinct, GroupBy, GroupByAggrClone, GroupByAggrCopy, ToVec};
use std::collections::VecDeque;

#[derive(Debug)]
struct Grouped {
    cat: &'static str,
    val: i32,
}

impl std::fmt::Display for Grouped {
    fn fmt(&self, f: &mut std::fmt::Formatter<'_>) -> std::fmt::Result {
        f.write_str(&format!("Grouped[cat={}, val={}]", self.cat, self.val))
    }
}

type Aggr = fn(&Vec<Grouped>) -> usize;

fn as_usize(g: &Grouped) -> usize {
    let i: usize = g.val.try_into().unwrap();
    i
}

fn aggregators() -> KeyMap<&'static str, Aggr> {
    let mut aggrs: KeyMap<&str, Aggr> = KeyMap::new();
    aggrs.insert("sum", |a: &Vec<Grouped>| a.iter().map(as_usize).sum::<usize>());
    aggrs.insert("avg", |a: &Vec<Grouped>| {
        let sum = a.iter().map(as_usize).sum::<usize>();
        sum / a.len()
    });
    aggrs.insert("product", |a: &Vec<Grouped>| a.iter().map(as_usize).product::<usize>());
    aggrs.insert("max", |a: &Vec<Grouped>| a.iter().map(as_usize).max().unwrap());
    aggrs.insert("min", |a: &Vec<Grouped>| a.iter().map(as_usize).min().unwrap());
    aggrs.insert("len", |a| a.len());
    aggrs
}

fn thirds(n: i32) -> Vec<Grouped> {
    (1..=n)
        .map(|i| Grouped {
            cat: if i % 3 == 0 {
                "Tiga"
            } else if i % 3 == 2 {
                "Dua"
            } else {
                "Satu"
            },
            val: i,
        })
        .collect()
}

#[test]
fn to_vec() {
    let jarak: VecDeque<i32> = (0..100).filter(|i| i % 2 == 0).collect();
    let jarak = jarak.to_vec();
    println!("Result : {:?}", jarak);
    assert_eq!(jarak.len(), 50);
    assert_eq!(jarak[0], 0);
    assert_eq!(jarak[1], 2);
    assert_eq!(jarak[49], 98);
}

#[test]
fn distinct() {
    let result = (0..100).map(|x| x % 3).collect::<Vec<i32>>().distinct();
    println!("Result : {:?}", result);
    assert_eq!(result, vec![0, 1, 2]);
}

#[test]
fn group_by() {
    let result = (0..10)
        .map(|i| Grouped {
            cat: if i % 2 == 0 { "Genap" } else { "Ganjil" },
            val: i,
        })
        .collect::<Vec<Grouped>>()
        .group_by(|g| g.cat);
    println!("Result : {:?}", result.get(&"Genap"));
    assert_eq!(result.len(), 2);
    let even: Vec<i32> = result.get(&"Genap").unwrap().iter().map(|g| g.val).collect();
    let odd: Vec<i32> = result.get(&"Ganjil").unwrap().iter().map(|g| g.val).collect();
    assert_eq!(even, vec![0, 2, 4, 6, 8]);
    assert_eq!(odd, vec![1, 3, 5, 7, 9]);
    assert_eq!(*result.key_at(0), "Genap");
    assert_eq!(*result.key_at(1), "Ganjil");
}

#[test]
fn group_by_aggr() {
    let result = thirds(20).group_by_aggr(|g| g.cat, aggregators());
    println!("Result : {:?}", result.get(&"Tiga").map(|m| m.get(&"sum")));
    assert_eq!(result.len(), 3);
    let tiga = result.get(&"Tiga").unwrap();
    assert_eq!(tiga.len(), 6);
    assert_eq!(*tiga.get(&"len").unwrap(), 6);
    assert_eq!(*tiga.get(&"max").unwrap(), 18);
    assert_eq!(*tiga.get(&"min").unwrap(), 3);
    assert_eq!(*tiga.get(&"sum").unwrap(), 63);
    assert_eq!(*tiga.get(&"avg").unwrap(), 10);
    assert_eq!(*tiga.get(&"product").unwrap(), 524880);
    let dua = result.get(&"Dua").unwrap();
    assert_eq!(*dua.get(&"len").unwrap(), 7);
    assert_eq!(*dua.get(&"sum").unwrap(), 77);
    assert_eq!(*dua.get(&"product").unwrap(), 4188800);
    let satu = result.get(&"Satu").unwrap();
    assert_eq!(*satu.get(&"len").unwrap(), 7);
    assert_eq!(*satu.get(&"sum").unwrap(), 70);
    assert_eq!(*satu.get(&"min").unwrap(), 1);
    assert_eq!(*satu.get(&"max").unwrap(), 19);
}

#[test]
fn group_by_aggr_clone_matches_copy() {
    let a = thirds(20).group_by_aggr(|g| g.cat, aggregators());
    let b = thirds(20).group_by_aggr_clone(|g| g.cat.to_string(), aggregators());
    assert_eq!(b.len(), 3);
    for key in ["Tiga", "Dua", "Satu"] {
        let x = a.get(&key).unwrap();
        let y = b.get(&key.to_string()).unwrap();
        for name in ["sum", "avg", "product", "max", "min", "len"] {
            assert_eq!(x.get(&name), y.get(&name));
        }
    }
}

#[test]
fn group_by_aggr_empty_input() {
    let empty: Vec<Grouped> = Vec::new();
    let result = empty.group_by_aggr(|g| g.cat, KeyMap::<&str, Aggr>::new());
    assert_eq!(result.len(), 0);
    let empty: Vec<Grouped> = Vec::new();
    let result = empty.group_by_aggr(|g| g.cat, aggregators());
    assert_eq!(result.len(), 0);
}

#[test]
fn group_by_aggr_no_aggregators() {
    let result = thirds(5).group_by_aggr(|g| g.cat, KeyMap::<&str, Aggr>::new());
    assert_eq!(result.len(), 3);
    assert_eq!(result.get(&"Dua").unwrap().len(), 0);
}
