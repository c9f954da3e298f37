use parts::{Layout, Parts};
use std::collections::BTreeSet;

fn lens<T>(slice: &[T], n: usize) -> Vec<usize> {
    Parts::new(slice, n).into_vec().iter().map(|p| p.len()).collect()
}

fn check_balanced(item_count: usize) {
    let items = vec![(); item_count];

    for requested_parts in 1..(items.len() * 2) {
        let actual_parts = Parts::new(&items, requested_parts).into_vec().len();
        assert!(actual_parts <= requested_parts);

        let unique_chunk_lens = Parts::new(&items, requested_parts)
            .into_vec()
            .iter()
            .map(|c| c.len())
            .collect::<BTreeSet<_>>();
        assert!(unique_chunk_lens.len() <= 2);

        if !unique_chunk_lens.is_empty() {
            let mut unique_values = unique_chunk_lens.into_iter();
            let short_len = unique_values.next().unwrap();
            if let Some(long_len) = unique_values.next() {
                assert_eq!(long_len, short_len + 1);
            }
        }
    }
}

fn balanced_on_small_inputs() {
    let a = [1];
    assert_eq!(1, Parts::new(&a, 100).into_vec().len());

    for item_count in 0..=100 {
        check_balanced(item_count);
    }
}

#[test]
fn seri_cow_does_it() {
    balanced_on_small_inputs();
}

#[test]
fn seri2_cow_does_it() {
    balanced_on_small_inputs();
}

#[test]
fn seri2_flipped_cow_does_it() {
    balanced_on_small_inputs();
}

#[test]
fn seri2_slice_flipped_cow_does_it() {
    balanced_on_small_inputs();
}

#[test]
fn rev_test() {
    let a = [0, 1, 2, 3, 4];

    let v: Vec<_> = Parts::new(&a, 2).into_rev_vec();
    assert_eq!(v, vec![&[3, 4][..], &[0, 1, 2][..]]);
}

#[test]
fn five_into_two() {
    let a = [0, 1, 2, 3, 4];
    let v = Parts::new(&a, 2).into_vec();
    assert_eq!(v, vec![&[0, 1, 2][..], &[3, 4][..]]);
}

#[test]
fn hundred_into_hundred() {
    let a = vec![0u8; 100];
    let l = lens(&a, 100);
    assert_eq!(l.len(), 100);
    assert!(l.iter().all(|&x| x == 1));
}

#[test]
fn five_into_hundred() {
    let a = vec![0u8; 5];
    assert_eq!(lens(&a, 100), vec![1, 1, 1, 1, 1]);
}

#[test]
fn empty_into_seven() {
    let a: Vec<u8> = Vec::new();
    let mut p = Parts::new(&a, 7);
    assert_eq!(p.len(), 0);
    assert!(p.next().is_none());
    assert!(p.next_back().is_none());
}

#[test]
fn seven_into_one() {
    let a = [1, 2, 3, 4, 5, 6, 7];
    assert_eq!(Parts::new(&a, 1).into_vec(), vec![&a[..]]);
}

#[test]
fn zero_parts_is_refused() {
    let a = [1, 2, 3];
    assert!(Parts::try_new(&a, 0).is_none());
    let empty: [u8; 0] = [];
    assert!(Parts::try_new(&empty, 0).is_none());
    assert!(Parts::try_new(&a, 2).is_some());
}

#[test]
fn lengths_add_up() {
    let a = vec![0u32; 103];
    for n in 1..=120 {
        assert_eq!(lens(&a, n).iter().sum::<usize>(), 103);
    }
}

#[test]
fn part_count_is_min() {
    for len in 0..40usize {
        let a = vec![0u8; len];
        for n in 1..50usize {
            let expected = if len == 0 { 0 } else { len.min(n) };
            let l = lens(&a, n);
            assert_eq!(l.len(), expected);
            assert!(l.iter().all(|&x| x > 0));
        }
    }
}

#[test]
fn longer_parts_count_is_remainder() {
    let a = vec![0u8; 23];
    for n in 1..=23usize {
        let l = lens(&a, n);
        let longer = l.iter().filter(|&&x| x == 23 / n + 1).count();
        assert_eq!(longer, 23 % n);
    }
    assert_eq!(lens(&a, 5), vec![5, 5, 5, 4, 4]);
}

#[test]
fn reverse_traversal_mirrors_forward() {
    let a: Vec<u32> = (0..57).collect();
    for n in 1..70 {
        let mut fwd = Parts::new(&a, n).into_vec();
        let back = Parts::new(&a, n).into_rev_vec();
        fwd.reverse();
        assert_eq!(fwd, back);
    }
}

#[test]
fn interleaved_pulls_do_not_overlap() {
    let a: Vec<u32> = (0..31).collect();
    let forward = Parts::new(&a, 7).into_vec();
    let mut p = Parts::new(&a, 7);
    let mut front = Vec::new();
    let mut back = Vec::new();
    let mut from_front = true;
    loop {
        let got = if from_front { p.next() } else { p.next_back() };
        match got {
            Some(s) => {
                if from_front {
                    front.push(s);
                } else {
                    back.push(s);
                }
            }
            None => break,
        }
        from_front = !from_front;
    }
    assert!(p.next().is_none());
    assert!(p.next_back().is_none());
    back.reverse();
    front.extend(back);
    assert_eq!(front, forward);
    let mut end = 0;
    for s in &front {
        assert_eq!(s[0], end);
        end = s[s.len() - 1] + 1;
    }
    assert_eq!(end, 31);
}

#[test]
fn exhausted_stays_exhausted() {
    let a = [1, 2, 3];
    let mut p = Parts::new(&a, 2);
    assert_eq!(p.next(), Some(&[1, 2][..]));
    assert_eq!(p.next_back(), Some(&[3][..]));
    for _ in 0..3 {
        assert!(p.next().is_none());
        assert!(p.next_back().is_none());
    }
}

#[test]
fn size_reporting_is_exact() {
    let a = vec![0u8; 10];
    let mut p = Parts::new(&a, 4);
    assert_eq!(p.len(), 4);
    assert_eq!(p.size_hint(), (4, Some(4)));
    p.next();
    p.next_back();
    assert_eq!(p.len(), 2);
    assert_eq!(p.size_hint(), (2, Some(2)));
}

#[test]
fn plan_exact_values() {
    assert_eq!(
        Layout::plan(5, 2),
        Layout { big_size: 3, big_count: 1, small_size: 2, small_count: 1 }
    );
    assert_eq!(
        Layout::plan(12, 4),
        Layout { big_size: 3, big_count: 0, small_size: 3, small_count: 4 }
    );
    assert_eq!(
        Layout::plan(3, 8),
        Layout { big_size: 1, big_count: 3, small_size: 0, small_count: 0 }
    );
    assert_eq!(
        Layout::plan(0, 7),
        Layout { big_size: 1, big_count: 0, small_size: 0, small_count: 0 }
    );
    assert_eq!(
        Layout::plan(usize::MAX, 1),
        Layout { big_size: usize::MAX, big_count: 0, small_size: usize::MAX, small_count: 1 }
    );
}
