use multicover::setidx::Idx;
use multicover::valueset::{Value, ValueSet};

#[test]
fn set_keeps_each_value_once_in_order_of_insertion() {
    let mut s: ValueSet<String> = ValueSet::new();
    assert!(s.is_empty());
    assert_eq!(s.len(), 0);
    assert!(s.insert("b".to_owned()));
    assert!(s.insert("a".to_owned()));
    assert!(!s.insert("b".to_owned()));
    assert!(s.insert("c".to_owned()));
    assert!(!s.insert("a".to_owned()));
    assert_eq!(s.len(), 3);
    assert!(!s.is_empty());
    assert_eq!(
        s.as_slice(),
        &["b".to_owned(), "a".to_owned(), "c".to_owned()]
    );
    assert!(s.contains(&"a".to_owned()));
    assert!(!s.contains(&"d".to_owned()));
}

#[test]
fn set_of_combinations() {
    let mut s: ValueSet<Idx> = ValueSet::new();
    assert!(s.insert(Idx::new(vec![0, 1])));
    assert!(s.insert(Idx::new(vec![1, 0])));
    assert!(!s.insert(Idx::new(vec![0, 1])));
    assert!(s.insert(Idx::new(vec![])));
    assert_eq!(s.len(), 3);
    assert!(s.contains(&Idx::new(vec![])));
    assert!(!s.contains(&Idx::new(vec![0])));
}

#[test]
fn set_clone_is_independent() {
    let mut s: ValueSet<String> = ValueSet::new();
    s.insert("a".to_owned());
    let copy = s.clone();
    s.insert("b".to_owned());
    assert_eq!(copy.len(), 1);
    assert_eq!(copy.as_slice(), &["a".to_owned()]);
    assert_eq!(s.len(), 2);
}

#[test]
fn values_are_told_apart_and_copied() {
    let a = "luna".to_owned();
    assert!(a.same(&"luna".to_owned()));
    assert!(!a.same(&"lun".to_owned()));
    assert!(!a.same(&"Luna".to_owned()));
    assert_eq!(a.copy(), a);
    let i = Idx::new(vec![1, 2]);
    assert!(Value::same(&i, &Idx::new(vec![1, 2])));
    assert!(!Value::same(&i, &Idx::new(vec![2, 1])));
    assert!(!Value::same(&i, &Idx::new(vec![1])));
    assert_eq!(Value::copy(&i), i);
}

fn plain_hash(bytes: &[u8]) -> u64 {
    let mut h: u64 = 0;
    for b in bytes {
        h = (h * 31 + *b as u64) % 4294967291;
    }
    h
}

#[test]
fn numbers_of_strings() {
    assert_eq!("".to_owned().hash(), 0);
    assert_eq!("a".to_owned().hash(), 97);
    assert_eq!("ab".to_owned().hash(), 97 * 31 + 98);
    assert_eq!("é".to_owned().hash(), 0xc3 * 31 + 0xa9);
    for w in ["luna", "stella", "sun", "月、太陽", "a much longer line of text, with fields"] {
        assert_eq!(w.to_owned().hash(), plain_hash(w.as_bytes()));
        assert!(w.to_owned().hash() < 4294967291);
    }
}

#[test]
fn numbers_of_combinations() {
    assert_eq!(Value::hash(&Idx::new(vec![])), 0);
    assert_eq!(Value::hash(&Idx::new(vec![7])), 7);
    assert_eq!(Value::hash(&Idx::new(vec![1, 2])), 1000003 + 2);
    assert_eq!(Value::hash(&Idx::new(vec![4294967291])), 0);
    assert_eq!(
        Value::hash(&Idx::new(vec![4294967290, 4294967292])),
        (4294967290u64 * 1000003 + 1) % 4294967291
    );
    assert_eq!(
        Value::hash(&Idx::new(vec![usize::MAX])),
        (usize::MAX as u64) % 4294967291
    );
}

#[test]
fn set_of_many_values() {
    let mut s: ValueSet<String> = ValueSet::new();
    for round in 0..3 {
        for i in 0..2000 {
            assert_eq!(s.insert(format!("value {}", (i * 7919) % 2000)), round == 0);
        }
    }
    assert_eq!(s.len(), 2000);
    for i in 0..2000 {
        assert!(s.contains(&format!("value {}", i)));
        assert!(!s.contains(&format!("value {}x", i)));
    }
    let order: Vec<String> = (0..2000)
        .map(|i| format!("value {}", (i * 7919) % 2000))
        .collect();
    assert_eq!(s.as_slice(), &order[..]);
    let copy = s.clone();
    assert_eq!(copy.as_slice(), s.as_slice());
    assert!(copy.contains(&"value 1999".to_owned()));
}

#[test]
fn values_with_the_same_number_are_told_apart() {
    let a = Idx::new(vec![0]);
    let b = Idx::new(vec![4294967291]);
    let c = Idx::new(vec![0, 0]);
    assert_eq!(Value::hash(&a), Value::hash(&b));
    assert_eq!(Value::hash(&a), Value::hash(&c));
    let mut s: ValueSet<Idx> = ValueSet::new();
    assert!(s.insert(a.clone()));
    assert!(!s.contains(&b));
    assert!(s.insert(b.clone()));
    assert!(s.insert(c.clone()));
    assert!(!s.insert(a.clone()));
    assert!(!s.insert(b.clone()));
    assert_eq!(s.len(), 3);
    assert_eq!(s.as_slice(), &[a, b, c]);
}
