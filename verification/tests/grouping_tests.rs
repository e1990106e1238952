use plot_digitizer::clusters::group_order;
use plot_digitizer::sampling::balance_shares;

#[test]
fn groups_largest_first_noise_dropped() {
    assert_eq!(group_order(&vec![3, 10, 5, 10, 4, 7]), vec![1, 3, 5, 2]);
}

#[test]
fn no_groups_from_noise() {
    assert!(group_order(&vec![1, 2, 4]).is_empty());
    assert!(group_order(&vec![]).is_empty());
}

#[test]
fn equal_sizes_keep_their_order() {
    assert_eq!(group_order(&vec![6, 6, 6]), vec![0, 1, 2]);
    assert_eq!(group_order(&vec![5, 9, 5, 9]), vec![1, 3, 0, 2]);
}

#[test]
fn shortfall_goes_to_longest_chain() {
    let mut s = vec![3, 3, 3];
    balance_shares(&mut s, 1, 10);
    assert_eq!(s, vec![3, 4, 3]);
    assert_eq!(s.iter().sum::<usize>(), 10);
}

#[test]
fn excess_is_taken_from_longest_chain() {
    let mut s = vec![5, 5, 2];
    balance_shares(&mut s, 0, 10);
    assert_eq!(s, vec![3, 5, 2]);
}

#[test]
fn excess_never_goes_below_zero() {
    let mut s = vec![1, 5];
    balance_shares(&mut s, 0, 3);
    assert_eq!(s, vec![0, 3]);
}

#[test]
fn excess_beyond_longest_comes_off_the_others() {
    let mut s = vec![2, 1, 1, 1];
    balance_shares(&mut s, 0, 2);
    assert_eq!(s, vec![0, 0, 1, 1]);
    assert_eq!(s.iter().sum::<usize>(), 2);
    let mut s = vec![1, 1, 3, 1];
    balance_shares(&mut s, 2, 0);
    assert_eq!(s, vec![0, 0, 0, 0]);
}

#[test]
fn shares_always_add_up() {
    for n in 0..12usize {
        for longest in 0..4usize {
            let mut s = vec![3, 0, 5, 1];
            balance_shares(&mut s, longest, n);
            assert_eq!(s.iter().sum::<usize>(), n);
        }
    }
}

#[test]
fn exact_shares_stay() {
    let mut s = vec![4, 6];
    balance_shares(&mut s, 1, 10);
    assert_eq!(s, vec![4, 6]);
}
