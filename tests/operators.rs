use datasets::{batch, shuffle, Batch, Dataset, DatasetError, Items, Shuffle};

fn drain<D: Dataset>(mut d: D) -> Vec<D::Item> {
    let mut out = Vec::new();
    while let Some(x) = d.next() {
        out.push(x);
    }
    out
}

fn range(n: usize) -> Items<usize> {
    Items::new((0..n).collect())
}

fn sorted(mut v: Vec<usize>) -> Vec<usize> {
    v.sort();
    v
}

#[test]
fn items_yield_in_order_then_stay_exhausted() {
    let mut src = Items::new(vec![3, 1, 2]);
    assert_eq!(src.next(), Some(3));
    assert_eq!(src.next(), Some(1));
    assert_eq!(src.next(), Some(2));
    assert_eq!(src.next(), None);
    assert_eq!(src.next(), None);
}

#[test]
fn batch_scenario_keep_remainder() {
    let b = batch(range(8), 5, false).unwrap();
    assert_eq!(drain(b), vec![vec![0, 1, 2, 3, 4], vec![5, 6, 7]]);
}

#[test]
fn batch_scenario_drop_remainder() {
    let b = batch(range(8), 5, true).unwrap();
    assert_eq!(drain(b), vec![vec![0, 1, 2, 3, 4]]);
}

#[test]
fn batch_zero_size_is_invalid() {
    let r = batch(range(8), 0, false);
    assert!(matches!(r, Err(DatasetError::InvalidBatchSize)));
    let r = Batch::new(range(8), 0, true);
    assert!(matches!(r, Err(DatasetError::InvalidBatchSize)));
}

#[test]
fn batch_counts_follow_division() {
    for n in 0..20usize {
        for k in 1..7usize {
            let kept = drain(batch(range(n), k, false).unwrap());
            let expected = n / k + if n % k != 0 { 1 } else { 0 };
            assert_eq!(kept.len(), expected);
            for (i, b) in kept.iter().enumerate() {
                if i < n / k {
                    assert_eq!(b.len(), k);
                } else {
                    assert_eq!(b.len(), n % k);
                }
            }
            let dropped = drain(batch(range(n), k, true).unwrap());
            assert_eq!(dropped.len(), n / k);
            assert!(dropped.iter().all(|b| b.len() == k));
        }
    }
}

#[test]
fn batch_preserves_order() {
    let kept = drain(batch(range(11), 3, false).unwrap());
    let flat: Vec<usize> = kept.into_iter().flatten().collect();
    assert_eq!(flat, (0..11).collect::<Vec<usize>>());
    let dropped = drain(batch(range(11), 3, true).unwrap());
    let flat: Vec<usize> = dropped.into_iter().flatten().collect();
    assert_eq!(flat, (0..9).collect::<Vec<usize>>());
}

#[test]
fn batch_of_empty_source_is_empty() {
    assert_eq!(drain(batch(range(0), 3, false).unwrap()).len(), 0);
    assert_eq!(drain(batch(range(0), 3, true).unwrap()).len(), 0);
}

#[test]
fn batch_larger_than_source() {
    assert_eq!(drain(batch(range(3), 10, false).unwrap()), vec![vec![0, 1, 2]]);
    assert_eq!(drain(batch(range(3), 10, true).unwrap()).len(), 0);
}

#[test]
fn batch_stays_exhausted() {
    let mut b = batch(range(3), 2, false).unwrap();
    assert_eq!(b.next(), Some(vec![0, 1]));
    assert_eq!(b.next(), Some(vec![2]));
    assert_eq!(b.next(), None);
    assert_eq!(b.next(), None);
}

#[test]
fn shuffle_scenario_seed_zero() {
    let v = drain(shuffle(range(8), 5, 0));
    assert_eq!(v.len(), 8);
    assert_eq!(sorted(v.clone()), (0..8).collect::<Vec<usize>>());
    assert_eq!(v, vec![4, 2, 0, 3, 7, 6, 5, 1]);
}

#[test]
fn shuffle_is_a_permutation() {
    for n in 0..30usize {
        for size in 1..12usize {
            let v = drain(shuffle(range(n), size, n as u64 * 31 + size as u64));
            assert_eq!(v.len(), n);
            assert_eq!(sorted(v), (0..n).collect::<Vec<usize>>());
        }
    }
}

#[test]
fn shuffle_keeps_duplicates() {
    let v = drain(shuffle(Items::new(vec![1usize, 1, 2, 2, 2, 3]), 3, 9));
    assert_eq!(sorted(v), vec![1, 1, 2, 2, 2, 3]);
}

#[test]
fn shuffle_same_seed_same_order() {
    let a = drain(shuffle(range(50), 7, 42));
    let b = drain(Shuffle::new(range(50), 7, 42));
    assert_eq!(a, b);
}

#[test]
fn shuffle_zero_window_is_empty() {
    let mut s = shuffle(range(8), 0, 3);
    assert_eq!(s.next(), None);
    assert_eq!(s.next(), None);
    assert_eq!(drain(Shuffle::unseeded(range(5), 0).unwrap()).len(), 0);
}

#[test]
fn shuffle_of_empty_source_is_empty() {
    assert_eq!(drain(shuffle(range(0), 4, 1)).len(), 0);
}

#[test]
fn shuffle_window_one_keeps_order() {
    assert_eq!(drain(shuffle(range(6), 1, 5)), (0..6).collect::<Vec<usize>>());
}

#[test]
fn shuffle_unseeded_is_a_permutation() {
    let v = drain(Shuffle::unseeded(range(40), 6).unwrap());
    assert_eq!(sorted(v), (0..40).collect::<Vec<usize>>());
}

#[test]
fn shuffle_stays_exhausted() {
    let mut s = shuffle(range(2), 4, 0);
    assert!(s.next().is_some());
    assert!(s.next().is_some());
    assert_eq!(s.next(), None);
    assert_eq!(s.next(), None);
}

#[test]
fn shuffle_then_batch() {
    let b = batch(shuffle(range(10), 4, 7), 3, false).unwrap();
    let batches = drain(b);
    assert_eq!(batches.len(), 4);
    assert_eq!(batches[3].len(), 1);
    let flat: Vec<usize> = batches.into_iter().flatten().collect();
    assert_eq!(sorted(flat), (0..10).collect::<Vec<usize>>());
}

#[test]
fn drain_collects_what_is_left() {
    let mut src = range(5);
    assert_eq!(src.next(), Some(0));
    assert_eq!(datasets::drain(&mut src), vec![1, 2, 3, 4]);
    assert_eq!(src.next(), None);
    assert_eq!(datasets::drain(&mut src), Vec::<usize>::new());
}
