use multicover::multiset::MultiSet;
use multicover::setidx::{Idx, Indexes};
use multicover::valueset::ValueSet;
use std::collections::HashSet;

#[test]
fn test_multiset() {
    let mut ms: MultiSet<String> = Default::default();
    ms.insert(0, "stella".to_owned());
    ms.insert(0, "luna".to_owned());
    ms.insert(1, "luna".to_owned());
    ms.insert(1, "sun".to_owned());

    let indexes: Vec<Idx> = vec![vec![0usize], vec![1usize], vec![0usize, 1usize]]
        .into_iter()
        .map(Idx::from)
        .collect();

    let msi = ms.element_iter(indexes);
    let mut got = msi.collect();
    got.sort_by_key(|a| a.element().clone());
    let want = vec![
        (
            "luna",
            vec![vec![0usize], vec![1usize], vec![0usize, 1usize]],
        ),
        ("stella", vec![vec![0usize]]),
        ("sun", vec![vec![1usize]]),
    ];

    assert_eq!(got.len(), want.len());
    for (i, g) in got.iter().enumerate() {
        let w = &want[i];
        assert_eq!(g.element(), w.0);
        let wi: HashSet<Idx> = w.1.iter().map(|i| Idx::from(i.clone())).collect();
        let gi: HashSet<Idx> = g.indexes().as_slice().iter().cloned().collect();
        assert_eq!(gi, wi);
        assert_eq!(g.indexes().len(), wi.len());
    }
}

fn idx(v: &[usize]) -> Idx {
    Idx::new(v.to_vec())
}

fn scenario() -> MultiSet<String> {
    let mut ms: MultiSet<String> = Default::default();
    assert!(ms.insert(0, "stella".to_owned()));
    assert!(ms.insert(0, "luna".to_owned()));
    assert!(ms.insert(1, "luna".to_owned()));
    assert!(ms.insert(1, "sun".to_owned()));
    ms
}

fn records(ms: MultiSet<String>, indexes: Vec<Idx>) -> Vec<(String, HashSet<Idx>)> {
    let mut it = ms.element_iter(indexes);
    let mut out = Vec::new();
    while let Some(e) = it.next() {
        out.push((
            e.element().clone(),
            e.indexes().as_slice().iter().cloned().collect(),
        ));
    }
    assert!(it.next().is_none());
    out.sort_by_key(|a| a.0.clone());
    out
}

#[test]
fn two_sources_with_generated_combinations() {
    let ms = scenario();
    let indexes = Indexes::new(ms.len(), Some(1), Some(2)).collect();
    assert_eq!(indexes, vec![idx(&[0]), idx(&[1]), idx(&[0, 1])]);
    let got = records(ms, indexes);
    let want: Vec<(String, HashSet<Idx>)> = vec![
        (
            "luna".to_owned(),
            vec![idx(&[0]), idx(&[1]), idx(&[0, 1])].into_iter().collect(),
        ),
        ("stella".to_owned(), vec![idx(&[0])].into_iter().collect()),
        ("sun".to_owned(), vec![idx(&[1])].into_iter().collect()),
    ];
    assert_eq!(got, want);
}

#[test]
fn no_combinations_give_empty_records() {
    let mut ms = scenario();
    ms.insert(3, "sun".to_owned());
    let indexes = Indexes::new(ms.len(), Some(3), Some(2)).collect();
    assert!(indexes.is_empty());
    let got = records(ms, indexes);
    assert_eq!(got.len(), 3);
    for (_, hits) in got {
        assert!(hits.is_empty());
    }
}

#[test]
fn empty_combination_is_never_satisfied() {
    let ms = scenario();
    assert!(!ms.contains_with_indexes(&"luna".to_owned(), &idx(&[])));
    assert!(!ms.contains_with_indexes(&"nothing".to_owned(), &idx(&[])));
    let empty: MultiSet<String> = Default::default();
    assert!(!empty.contains_with_indexes(&"luna".to_owned(), &idx(&[])));
    let got = records(scenario(), Indexes::new(2, Some(0), Some(0)).collect());
    assert_eq!(got.len(), 3);
    for (_, hits) in got {
        assert!(hits.is_empty());
    }
}

#[test]
fn membership_in_every_named_source() {
    let ms = scenario();
    let luna = "luna".to_owned();
    let sun = "sun".to_owned();
    assert!(ms.contains_with_indexes(&luna, &idx(&[0])));
    assert!(ms.contains_with_indexes(&luna, &idx(&[1])));
    assert!(ms.contains_with_indexes(&luna, &idx(&[0, 1])));
    assert!(ms.contains_with_indexes(&luna, &idx(&[1, 0, 1])));
    assert!(!ms.contains_with_indexes(&sun, &idx(&[0])));
    assert!(ms.contains_with_indexes(&sun, &idx(&[1])));
    assert!(!ms.contains_with_indexes(&sun, &idx(&[0, 1])));
    assert!(!ms.contains_with_indexes(&sun, &idx(&[1, 0])));
}

#[test]
fn index_out_of_bounds_is_not_satisfied() {
    let ms = scenario();
    let luna = "luna".to_owned();
    assert!(!ms.contains_with_indexes(&luna, &idx(&[2])));
    assert!(!ms.contains_with_indexes(&luna, &idx(&[0, 2])));
    assert!(!ms.contains_with_indexes(&luna, &idx(&[usize::MAX])));
    assert!(!ms.contains_with_indexes(&luna, &idx(&[5, 0])));
}

#[test]
fn insert_extends_to_the_index() {
    let mut ms: MultiSet<String> = Default::default();
    assert_eq!(ms.len(), 0);
    assert!(ms.is_empty());
    assert!(ms.insert(5, "a".to_owned()));
    assert_eq!(ms.len(), 6);
    assert!(!ms.is_empty());
    assert!(ms.insert(2, "a".to_owned()));
    assert_eq!(ms.len(), 6);
    assert!(ms.insert(6, "b".to_owned()));
    assert_eq!(ms.len(), 7);
    for i in 0..7 {
        let want = match i {
            2 | 5 | 6 => 1,
            _ => 0,
        };
        assert_eq!(ms[i].len(), want);
    }
    assert!(ms[5].contains(&"a".to_owned()));
    assert!(!ms[5].contains(&"b".to_owned()));
    assert!(ms[6].contains(&"b".to_owned()));
}

#[test]
fn insert_says_whether_the_value_is_new() {
    let mut ms: MultiSet<String> = Default::default();
    assert!(ms.insert(0, "a".to_owned()));
    assert!(!ms.insert(0, "a".to_owned()));
    assert!(ms.insert(1, "a".to_owned()));
    assert!(ms.insert(0, "".to_owned()));
    assert!(!ms.insert(0, "".to_owned()));
    assert_eq!(ms.len(), 2);
    assert_eq!(ms.cardinality(), 3);
}

#[test]
fn cardinality_counts_a_value_once_for_each_source() {
    let ms = scenario();
    assert_eq!(ms.cardinality(), 4);
    assert_eq!(ms.union().len(), 3);
    let empty: MultiSet<String> = Default::default();
    assert_eq!(empty.cardinality(), 0);
    assert_eq!(empty.union().len(), 0);
}

#[test]
fn union_holds_each_value_once() {
    let u = scenario().union();
    let got: HashSet<String> = u.as_slice().iter().cloned().collect();
    let want: HashSet<String> = vec!["stella", "luna", "sun"]
        .into_iter()
        .map(|s| s.to_owned())
        .collect();
    assert_eq!(got, want);
    assert_eq!(u.as_slice().len(), 3);
    assert!(u.contains(&"sun".to_owned()));
    assert!(!u.contains(&"moon".to_owned()));
}

#[test]
fn clone_is_independent() {
    let mut ms = scenario();
    let copy = ms.clone();
    ms.insert(2, "moon".to_owned());
    assert_eq!(copy.len(), 2);
    assert_eq!(copy.cardinality(), 4);
    assert_eq!(ms.len(), 3);
    assert_eq!(ms.cardinality(), 5);
}

#[test]
fn sets_of_a_multiset() {
    let ms = scenario();
    let sets: Vec<ValueSet<String>> = Vec::from(ms);
    assert_eq!(sets.len(), 2);
    assert!(sets[0].contains(&"stella".to_owned()));
    assert!(sets[0].contains(&"luna".to_owned()));
    assert!(!sets[0].contains(&"sun".to_owned()));
    assert_eq!(sets[1].len(), 2);
}

#[test]
fn one_record_for_each_value_of_the_union() {
    let mut ms = scenario();
    ms.insert(2, "luna".to_owned());
    ms.insert(2, "moon".to_owned());
    let indexes = Indexes::new(3, None, None).collect();
    let mut it = ms.clone().element_iter(indexes.clone());
    assert_eq!(it.indexes(), &indexes);
    let first = it.next().unwrap();
    let rest = it.collect();
    assert_eq!(rest.len(), 3);
    let mut seen: HashSet<String> = rest.iter().map(|e| e.element().clone()).collect();
    assert!(seen.insert(first.element().clone()));
    assert_eq!(seen.len(), 4);
    let all = ms.element_iter(indexes).collect();
    assert_eq!(all.len(), 4);
    assert_eq!(all[0].element(), first.element());
    for (a, b) in all[1..].iter().zip(rest.iter()) {
        assert_eq!(a.element(), b.element());
        assert_eq!(a.indexes().as_slice(), b.indexes().as_slice());
    }
}

#[test]
fn repeated_combinations_count_once() {
    let ms = scenario();
    let mut it = ms.element_iter(vec![idx(&[0]), idx(&[1]), idx(&[0]), idx(&[0, 1])]);
    while let Some(e) = it.next() {
        let hits = e.indexes();
        let want: usize = match e.element().as_str() {
            "luna" => 3,
            _ => 1,
        };
        assert_eq!(hits.len(), want);
        assert_eq!(hits.is_empty(), false);
    }
}

fn step(seed: &mut u64) -> usize {
    *seed = seed
        .wrapping_mul(6364136223846793005)
        .wrapping_add(1442695040888963407);
    (*seed >> 33) as usize
}

#[test]
fn records_agree_with_brute_force() {
    let mut seed: u64 = 7;
    for round in 0..40 {
        let n = 1 + round % 4;
        let mut plain: Vec<HashSet<String>> = vec![HashSet::new(); n];
        let mut ms: MultiSet<String> = Default::default();
        for _ in 0..(step(&mut seed) % 12) {
            let i = step(&mut seed) % n;
            let v = format!("v{}", step(&mut seed) % 5);
            assert_eq!(ms.insert(i, v.clone()), plain[i].insert(v));
        }
        let size = ms.len();
        assert!(size <= n);
        let combos = Indexes::new(size, None, None).collect();
        let union: HashSet<String> = plain.iter().flatten().cloned().collect();
        let got = records(ms, combos.clone());
        assert_eq!(got.len(), union.len());
        for (value, hits) in got {
            assert!(union.contains(&value));
            let want: HashSet<Idx> = combos
                .iter()
                .filter(|c| (0..c.len()).all(|k| plain[c[k]].contains(&value)))
                .cloned()
                .collect();
            assert_eq!(hits, want);
        }
    }
}
