use group_ops::keymap::KeyMap;
use group_ops::ranges::GroupBy;

#[derive(Debug, Clone, Copy)]
struct Grouped {
    cat: &'static str,
    val: i32,
}

impl std::fmt::Display for Grouped {
    fn fmt(&self, f: &mut std::fmt::Formatter<'_>) -> std::fmt::Result {
        f.write_str(&format!("Grouped[cat={}, val={}]", self.cat, self.val))
    }
}

fn parity() -> KeyMap<&'static str, Vec<Grouped>> {
    (0..10)
        .map(|i| Grouped {
            cat: if i % 2 == 0 { "Genap" } else { "Ganjil" },
            val: i,
        })
        .collect::<Vec<Grouped>>()
        .group_by(|g| g.cat)
}

#[test]
fn map1() {
    let result = parity().map(|i| i.to_string(), |v| format!("{}", v.first().unwrap()));
    println!("Result : {:?}", result.get(&"Genap".to_string()));
    assert_eq!(result.len(), 2);
    assert_eq!(
        result.get(&"Genap".to_string()).unwrap(),
        "Grouped[cat=Genap, val=0]"
    );
    assert_eq!(
        result.get(&"Ganjil".to_string()).unwrap(),
        "Grouped[cat=Ganjil, val=1]"
    );
}

#[test]
fn map2() {
    let result = parity().map1(|v| *v.first().unwrap());
    println!("Result : {:?}", result.get(&"Genap"));
    assert_eq!(result.len(), 2);
    assert_eq!(result.get(&"Genap").unwrap().val, 0);
    assert_eq!(result.get(&"Ganjil").unwrap().val, 1);
}

#[test]
fn map_collision_keeps_later_entry() {
    let mut m: KeyMap<i32, i32> = KeyMap::new();
    m.insert(1, 10);
    m.insert(2, 20);
    m.insert(3, 30);
    let r = m.map(|_k| 0, |v| *v + 1);
    assert_eq!(r.len(), 1);
    assert_eq!(r.get(&0), Some(&31));
}

#[test]
fn map_rewrites_keys_and_values() {
    let mut m: KeyMap<i32, i32> = KeyMap::new();
    m.insert(1, 10);
    m.insert(2, 20);
    let r = m.map(|k| *k * 100, |v| *v * 2);
    assert_eq!(r.len(), 2);
    assert_eq!(r.get(&100), Some(&20));
    assert_eq!(r.get(&200), Some(&40));
    assert_eq!(r.get(&1), None);
}

#[test]
fn insert_overwrites_in_place() {
    let mut m: KeyMap<&str, i32> = KeyMap::new();
    m.insert("a", 1);
    m.insert("b", 2);
    m.insert("a", 3);
    assert_eq!(m.len(), 2);
    assert_eq!(m.get(&"a"), Some(&3));
    assert_eq!(*m.key_at(0), "a");
    assert_eq!(*m.value_at(0), 3);
    assert!(m.contains_key(&"b"));
    assert!(!m.contains_key(&"c"));
    let entries = m.into_entries();
    assert_eq!(entries, vec![("a", 3), ("b", 2)]);
}

#[test]
fn push_to_appends_in_order() {
    let mut m: KeyMap<u8, Vec<i32>> = KeyMap::new();
    m.push_to(1, 5);
    m.push_to(2, 6);
    m.push_to(1, 7);
    assert_eq!(m.get(&1), Some(&vec![5, 7]));
    assert_eq!(m.get(&2), Some(&vec![6]));
}
