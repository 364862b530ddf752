use powerset::{Powerset, SizableContainer, Subset};

fn collect_cloned(mut sub: Subset<'_, Vec<i32>>) -> Vec<i32> {
    let mut out = Vec::new();
    while let Some(x) = sub.next() {
        out.push(*x);
    }
    out
}

#[test]
fn it_works() {
    let items = vec![1, 2, 3, 4];
    let mut powerset = items.powerset();

    // Test that we get all subsets of the vector, and nothing more
    assert_eq!(Vec::<i32>::new(), collect_cloned(powerset.next().unwrap()));
    assert_eq!(vec![1], collect_cloned(powerset.next().unwrap()));
    assert_eq!(vec![2], collect_cloned(powerset.next().unwrap()));
    assert_eq!(vec![1, 2], collect_cloned(powerset.next().unwrap()));
    assert_eq!(vec![3], collect_cloned(powerset.next().unwrap()));
    assert_eq!(vec![1, 3], collect_cloned(powerset.next().unwrap()));
    assert_eq!(vec![2, 3], collect_cloned(powerset.next().unwrap()));
    assert_eq!(vec![1, 2, 3], collect_cloned(powerset.next().unwrap()));
    assert_eq!(vec![4], collect_cloned(powerset.next().unwrap()));
    assert_eq!(vec![1, 4], collect_cloned(powerset.next().unwrap()));
    assert_eq!(vec![2, 4], collect_cloned(powerset.next().unwrap()));
    assert_eq!(vec![1, 2, 4], collect_cloned(powerset.next().unwrap()));
    assert_eq!(vec![3, 4], collect_cloned(powerset.next().unwrap()));
    assert_eq!(vec![1, 3, 4], collect_cloned(powerset.next().unwrap()));
    assert_eq!(vec![2, 3, 4], collect_cloned(powerset.next().unwrap()));
    assert_eq!(vec![1, 2, 3, 4], collect_cloned(powerset.next().unwrap()));
    assert!(powerset.next().is_none());
}

#[test]
fn empty_source_yields_one_empty_subset() {
    let items: Vec<i32> = Vec::new();
    let mut powerset = items.powerset();
    let first = powerset.next();
    assert!(first.is_some());
    let mut sub = first.unwrap();
    assert_eq!((0, 0), sub.size_hint());
    assert!(sub.next().is_none());
    assert!(powerset.next().is_none());
    assert!(powerset.next().is_none());
}

#[test]
fn yields_exactly_two_to_the_n_subsets() {
    for n in 0..=8usize {
        let items: Vec<i32> = (0..n as i32).collect();
        let mut powerset = items.powerset();
        let mut count: usize = 0;
        while let Some(_) = powerset.next() {
            count += 1;
        }
        assert_eq!(1usize << n, count);
        // once exhausted, permanently exhausted
        assert!(powerset.next().is_none());
    }
}

#[test]
fn subsets_come_in_ascending_bitmask_order() {
    let items = vec![10, 20, 30];
    let mut powerset = items.powerset();
    let expected: Vec<Vec<i32>> = vec![
        vec![],
        vec![10],
        vec![20],
        vec![10, 20],
        vec![30],
        vec![10, 30],
        vec![20, 30],
        vec![10, 20, 30],
    ];
    for want in &expected {
        let sub = powerset.next().unwrap();
        assert_eq!(*want, collect_cloned(sub));
    }
    assert!(powerset.next().is_none());
}

#[test]
fn size_hint_is_exact_and_decrements_to_zero() {
    let items = vec![1, 2, 3, 4, 5, 6];
    let mut powerset = items.powerset();
    let mut mask: u32 = 0;
    loop {
        let sub = powerset.next();
        if sub.is_none() {
            break;
        }
        let mut sub = sub.unwrap();
        let (lo, hi) = sub.size_hint();
        // before consuming anything, the hint is the population count of
        // the subset's bitmask, and the bounds agree
        assert_eq!(lo, hi);
        assert_eq!(mask.count_ones() as usize, lo);
        let mut left = lo;
        let mut consumed: usize = 0;
        while let Some(_) = sub.next() {
            consumed += 1;
            let (next_lo, next_hi) = sub.size_hint();
            // each yield lowers the exact hint by one
            assert_eq!(left - 1, next_lo);
            assert_eq!(next_lo, next_hi);
            left = next_lo;
        }
        assert_eq!(0, left);
        assert_eq!(lo, consumed);
        mask += 1;
    }
    assert_eq!(1u32 << 6, mask);
}

#[test]
fn two_passes_yield_identical_sequences() {
    let items = vec![4, 8, 15, 16, 23];
    let mut first_pass: Vec<Vec<i32>> = Vec::new();
    let mut powerset = items.powerset();
    while let Some(sub) = powerset.next() {
        first_pass.push(collect_cloned(sub));
    }
    let mut second_pass: Vec<Vec<i32>> = Vec::new();
    let mut powerset = items.powerset();
    while let Some(sub) = powerset.next() {
        second_pass.push(collect_cloned(sub));
    }
    assert_eq!(first_pass, second_pass);
    assert_eq!(1usize << 5, first_pass.len());
}

#[test]
fn popcount_matches_known_values() {
    assert_eq!(0, powerset::bits::popcount_usize(0));
    assert_eq!(1, powerset::bits::popcount_usize(1));
    assert_eq!(1, powerset::bits::popcount_usize(0b1000));
    assert_eq!(3, powerset::bits::popcount_usize(0b10110));
    assert_eq!(8, powerset::bits::popcount_usize(0xFF));
}

#[test]
fn duplicate_elements_are_kept_apart_by_position() {
    let items = vec![5, 5];
    let mut powerset = items.powerset();
    assert_eq!(Vec::<i32>::new(), collect_cloned(powerset.next().unwrap()));
    assert_eq!(vec![5], collect_cloned(powerset.next().unwrap()));
    assert_eq!(vec![5], collect_cloned(powerset.next().unwrap()));
    assert_eq!(vec![5, 5], collect_cloned(powerset.next().unwrap()));
    assert!(powerset.next().is_none());
}

#[test]
fn vec_reports_its_count_and_elements() {
    let items = vec![5, 6, 7];
    assert_eq!(3, items.num_elements());
    assert_eq!(5, *items.at(0));
    assert_eq!(6, *items.at(1));
    assert_eq!(7, *items.at(2));
    let empty: Vec<i32> = Vec::new();
    assert_eq!(0, empty.num_elements());
}
