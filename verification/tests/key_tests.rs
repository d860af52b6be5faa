use bplus_tree::keys::{find_route, find_slot};
use bplus_tree::order::less;

#[test]
fn less_is_the_strict_order() {
    assert!(less(&1u64, &2u64));
    assert!(!less(&2u64, &2u64));
    assert!(!less(&3u64, &2u64));
}

#[test]
fn route_goes_right_of_an_equal_separator() {
    let keys: Vec<u64> = vec![10, 20, 30];
    assert_eq!(find_route(&keys, &5), 0);
    assert_eq!(find_route(&keys, &10), 1);
    assert_eq!(find_route(&keys, &15), 1);
    assert_eq!(find_route(&keys, &20), 2);
    assert_eq!(find_route(&keys, &30), 3);
    assert_eq!(find_route(&keys, &99), 3);
    let none: Vec<u64> = vec![];
    assert_eq!(find_route(&none, &1), 0);
}

#[test]
fn slot_is_the_first_key_not_below() {
    let keys: Vec<u64> = vec![10, 20, 30];
    assert_eq!(find_slot(&keys, &5), 0);
    assert_eq!(find_slot(&keys, &10), 0);
    assert_eq!(find_slot(&keys, &15), 1);
    assert_eq!(find_slot(&keys, &20), 1);
    assert_eq!(find_slot(&keys, &30), 2);
    assert_eq!(find_slot(&keys, &31), 3);
    let none: Vec<u64> = vec![];
    assert_eq!(find_slot(&none, &1), 0);
}
