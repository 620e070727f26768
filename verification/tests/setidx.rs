use multicover::setidx::{BIdx, Combinations, Idx, Indexes};

#[test]
fn test_combinations() {
    assert_eq!(
        Combinations::new(4, 3).collect(),
        vec![vec![0, 1, 2], vec![0, 1, 3], vec![0, 2, 3], vec![1, 2, 3],]
    )
}

fn to_usize_vec(v: Vec<Vec<i32>>) -> Vec<Idx> {
    v.into_iter()
        .map(|v| Idx::from(v.into_iter().map(|x| x as usize).collect::<Vec<usize>>()))
        .collect()
}

#[test]
fn test_indexes() {
    assert_eq!(
        Indexes::new(4, None, None).collect(),
        to_usize_vec(vec![
            vec![0],
            vec![1],
            vec![2],
            vec![3],
            vec![0, 1],
            vec![0, 2],
            vec![0, 3],
            vec![1, 2],
            vec![1, 3],
            vec![2, 3],
            vec![0, 1, 2],
            vec![0, 1, 3],
            vec![0, 2, 3],
            vec![1, 2, 3],
            vec![0, 1, 2, 3],
        ])
    );

    assert_eq!(
        Indexes::new(4, None, Some(2)).collect(),
        to_usize_vec(vec![
            vec![0],
            vec![1],
            vec![2],
            vec![3],
            vec![0, 1],
            vec![0, 2],
            vec![0, 3],
            vec![1, 2],
            vec![1, 3],
            vec![2, 3],
        ])
    );

    assert_eq!(
        Indexes::new(4, Some(2), Some(2)).collect(),
        to_usize_vec(vec![
            vec![0, 1],
            vec![0, 2],
            vec![0, 3],
            vec![1, 2],
            vec![1, 3],
            vec![2, 3],
        ])
    )
}

#[test]
fn bit_vector_of_a_combination() {
    let i = Idx::new(vec![1, 2]);
    let b = BIdx::new(vec![false, true, true, false]);
    assert_eq!(i.to_bidx(4), b);
}

#[test]
fn bit_string_and_decimal_are_most_significant_first() {
    let b = BIdx::new(vec![false, true, true, false]);
    assert_eq!(b.to_string(), "0110");
    assert_eq!(b.to_decimal(), 6);
    assert_eq!(b.checked_to_decimal(), Some(6));
}

#[test]
fn combination_length() {
    assert_eq!(3, Idx::new(vec![1usize, 2usize, 4usize]).len());
    assert!(!Idx::new(vec![1usize]).is_empty());
    assert!(Idx::new(vec![]).is_empty());
}

fn drain(mut g: Indexes) -> Vec<Vec<usize>> {
    let mut out = Vec::new();
    while let Some(i) = g.next() {
        out.push(Vec::from(i));
    }
    out
}

#[test]
fn full_range_yields_two_to_the_n_minus_one() {
    for n in 0usize..=8 {
        let all = drain(Indexes::new(n, Some(1), Some(n)));
        assert_eq!(all.len(), (1usize << n) - 1);
        for c in all.iter() {
            assert!(!c.is_empty());
            assert!(c.iter().all(|x| *x < n));
            assert!(c.windows(2).all(|w| w[0] < w[1]));
        }
        for i in 0..all.len() {
            for j in (i + 1)..all.len() {
                assert_ne!(all[i], all[j]);
            }
        }
        assert_eq!(all, drain(Indexes::new(n, None, None)));
    }
}

#[test]
fn depths_come_in_order_and_each_in_lexicographic_order() {
    let all = drain(Indexes::new(5, Some(0), None));
    assert_eq!(all.len(), 32);
    for w in all.windows(2) {
        assert!(w[0].len() < w[1].len() || (w[0].len() == w[1].len() && w[0] < w[1]));
    }
}

#[test]
fn one_depth_of_four_sources() {
    assert_eq!(
        drain(Indexes::new(4, Some(2), Some(2))),
        vec![
            vec![0, 1],
            vec![0, 2],
            vec![0, 3],
            vec![1, 2],
            vec![1, 3],
            vec![2, 3]
        ]
    );
}

#[test]
fn inverted_depth_range_yields_nothing() {
    assert_eq!(drain(Indexes::new(4, Some(3), Some(2))), Vec::<Vec<usize>>::new());
    let mut g = Indexes::new(4, Some(3), Some(2));
    assert_eq!(g.next(), None);
    assert_eq!(g.next(), None);
}

#[test]
fn depth_zero_yields_the_empty_combination() {
    assert_eq!(drain(Indexes::new(3, Some(0), Some(0))), vec![Vec::<usize>::new()]);
    assert_eq!(
        drain(Indexes::new(2, Some(0), Some(1))),
        vec![vec![], vec![0], vec![1]]
    );
    assert_eq!(drain(Indexes::new(0, Some(0), None)), vec![Vec::<usize>::new()]);
}

#[test]
fn depth_end_is_capped_by_the_number_of_sources() {
    assert_eq!(
        drain(Indexes::new(3, None, Some(10))),
        drain(Indexes::new(3, None, None))
    );
    assert_eq!(drain(Indexes::new(3, Some(4), Some(10))), Vec::<Vec<usize>>::new());
    assert_eq!(drain(Indexes::new(0, None, None)), Vec::<Vec<usize>>::new());
}

#[test]
fn generator_stays_exhausted() {
    let mut g = Indexes::new(2, None, None);
    assert_eq!(g.next(), Some(Idx::new(vec![0])));
    assert_eq!(g.next(), Some(Idx::new(vec![1])));
    assert_eq!(g.next(), Some(Idx::new(vec![0, 1])));
    assert_eq!(g.next(), None);
    assert_eq!(g.next(), None);
    assert_eq!(g.collect(), Vec::<Idx>::new());
}

#[test]
fn collect_yields_what_is_left() {
    let mut g = Indexes::new(3, None, None);
    assert_eq!(g.next(), Some(Idx::new(vec![0])));
    assert_eq!(
        g.collect(),
        to_usize_vec(vec![
            vec![1],
            vec![2],
            vec![0, 1],
            vec![0, 2],
            vec![1, 2],
            vec![0, 1, 2]
        ])
    );
}

#[test]
fn combinations_of_one_depth() {
    assert_eq!(
        Combinations::new(4, 2).collect(),
        vec![
            vec![0, 1],
            vec![0, 2],
            vec![0, 3],
            vec![1, 2],
            vec![1, 3],
            vec![2, 3]
        ]
    );
    assert_eq!(Combinations::new(3, 3).collect(), vec![vec![0, 1, 2]]);
    assert_eq!(Combinations::new(3, 0).collect(), vec![Vec::<usize>::new()]);
    assert_eq!(Combinations::new(0, 0).collect(), vec![Vec::<usize>::new()]);
    assert_eq!(Combinations::new(3, 4).collect(), Vec::<Vec<usize>>::new());
    assert_eq!(
        Combinations::new(3, usize::MAX).collect(),
        Vec::<Vec<usize>>::new()
    );
}

#[test]
fn combinations_one_at_a_time() {
    let mut c = Combinations::new(3, 2);
    assert_eq!(c.next(), Some(vec![0, 1]));
    assert_eq!(c.next(), Some(vec![0, 2]));
    assert_eq!(c.next(), Some(vec![1, 2]));
    assert_eq!(c.next(), None);
    assert_eq!(c.next(), None);
    let mut none = Combinations::new(1, 2);
    assert_eq!(none.next(), None);
}

#[test]
fn combination_counts_are_binomial() {
    let want = [1usize, 6, 15, 20, 15, 6, 1, 0];
    for (k, w) in want.iter().enumerate() {
        assert_eq!(Combinations::new(6, k).collect().len(), *w);
    }
}

#[test]
fn bit_string_marks_the_indices_of_the_combination() {
    for n in 0usize..=5 {
        for c in drain(Indexes::new(n, Some(0), None)) {
            let s = Idx::new(c.clone()).to_bidx(n).to_string();
            assert_eq!(s.chars().count(), n);
            for (i, ch) in s.chars().enumerate() {
                assert_eq!(ch == '1', c.contains(&i));
                assert_eq!(ch == '0', !c.contains(&i));
            }
        }
    }
}

#[test]
fn bit_vector_ignores_indices_beyond_the_width() {
    assert_eq!(
        Idx::new(vec![0, 5, 2]).to_bidx(3),
        BIdx::new(vec![true, false, true])
    );
    assert_eq!(Idx::new(vec![3]).to_bidx(3), BIdx::new(vec![false, false, false]));
    assert_eq!(Idx::new(vec![1, 1]).to_bidx(2), BIdx::new(vec![false, true]));
    assert_eq!(Idx::new(vec![0]).to_bidx(0), BIdx::new(vec![]));
    assert_ne!(Idx::new(vec![0]).to_bidx(1), BIdx::new(vec![false]));
    assert_ne!(Idx::new(vec![0]).to_bidx(1), BIdx::new(vec![true, false]));
}

#[test]
fn decimal_values() {
    assert_eq!(BIdx::new(vec![]).to_decimal(), 0);
    assert_eq!(BIdx::new(vec![]).to_string(), "");
    assert_eq!(BIdx::new(vec![true]).to_decimal(), 1);
    assert_eq!(BIdx::new(vec![true, false]).to_decimal(), 2);
    assert_eq!(BIdx::new(vec![false, true]).to_decimal(), 1);
    assert_eq!(BIdx::new(vec![true, false, false, false]).to_decimal(), 8);
    assert_eq!(BIdx::new(vec![true, false, true, true]).to_decimal(), 11);
    assert_eq!(BIdx::new(vec![true, false, true, true]).to_string(), "1011");
    assert_eq!(Idx::new(vec![0, 3]).to_bidx(4).to_decimal(), 9);
}

#[test]
fn decimal_at_the_limit_of_usize() {
    let width = usize::BITS as usize;
    assert_eq!(
        BIdx::new(vec![true; width]).checked_to_decimal(),
        Some(usize::MAX)
    );
    assert_eq!(BIdx::new(vec![true; width]).to_decimal(), usize::MAX);
    let mut over = vec![false; width + 1];
    over[0] = true;
    assert_eq!(BIdx::new(over).checked_to_decimal(), None);
    let mut padded = vec![false; width + 3];
    padded[width + 2] = true;
    padded[3] = true;
    assert_eq!(
        BIdx::new(padded).checked_to_decimal(),
        Some((1usize << (width - 1)) + 1)
    );
    assert_eq!(Idx::new(vec![0]).to_bidx(width + 1).checked_to_decimal(), None);
}

#[test]
fn combination_conversions() {
    let i = Idx::from(vec![2usize, 0, 1]);
    assert_eq!(i[0], 2);
    assert_eq!(i[2], 1);
    assert_eq!(i.len(), 3);
    assert_eq!(i.clone(), i);
    assert_ne!(i, Idx::new(vec![0, 1, 2]));
    assert_ne!(i, Idx::new(vec![2, 0]));
    assert_eq!(Vec::from(i), vec![2usize, 0, 1]);
}

#[test]
fn largest_pool() {
    assert_eq!(multicover::setidx::MAX_SIZE, usize::MAX / 16);
    assert_eq!(
        Combinations::new(multicover::setidx::MAX_SIZE, 0).collect(),
        vec![Vec::<usize>::new()]
    );
}
