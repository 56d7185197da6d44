use clonable::symbol::{CounterStruct, Symbol};

fn limbs_with(first: u128, second: u128) -> [u128; 16] {
    let mut limbs = [0u128; 16];
    limbs[0] = first;
    limbs[1] = second;
    limbs
}

#[test]
fn new_counter_hands_out_zero_then_one() {
    let mut counter = CounterStruct::new();
    assert_eq!(counter.get_and_add_one(), [0u128; 16]);
    assert_eq!(counter.get_and_add_one(), limbs_with(1, 0));
    assert_eq!(counter.get_and_add_one(), limbs_with(2, 0));
}

#[test]
fn counter_hands_out_its_value_before_the_step() {
    let mut counter = CounterStruct::from_limbs(limbs_with(41, 7));
    assert_eq!(counter.get_and_add_one(), limbs_with(41, 7));
    assert_eq!(counter.get_and_add_one(), limbs_with(42, 7));
}

#[test]
fn counter_carries_into_the_next_limb() {
    let mut counter = CounterStruct::from_limbs(limbs_with(u128::MAX, 0));
    assert_eq!(counter.get_and_add_one(), limbs_with(u128::MAX, 0));
    assert_eq!(counter.get_and_add_one(), limbs_with(0, 1));
    assert_eq!(counter.get_and_add_one(), limbs_with(1, 1));
}

#[test]
fn counter_carries_through_several_limbs() {
    let mut limbs = [0u128; 16];
    limbs[0] = u128::MAX;
    limbs[1] = u128::MAX;
    limbs[2] = u128::MAX;
    limbs[3] = 5;
    let mut counter = CounterStruct::from_limbs(limbs);
    assert_eq!(counter.get_and_add_one(), limbs);
    let mut expected = [0u128; 16];
    expected[3] = 6;
    assert_eq!(counter.get_and_add_one(), expected);
}

#[test]
fn counter_carries_into_the_last_limb() {
    let mut limbs = [u128::MAX; 16];
    limbs[15] = 9;
    let mut counter = CounterStruct::from_limbs(limbs);
    assert!(!counter.is_exhausted());
    assert_eq!(counter.get_and_add_one(), limbs);
    let mut expected = [0u128; 16];
    expected[15] = 10;
    assert_eq!(counter.get_and_add_one(), expected);
}

#[test]
fn counter_with_every_limb_at_its_maximum_is_exhausted() {
    let counter = CounterStruct::from_limbs([u128::MAX; 16]);
    assert!(counter.is_exhausted());
}

#[test]
fn counter_one_below_the_limit_is_not_exhausted_until_stepped() {
    let mut limbs = [u128::MAX; 16];
    limbs[0] = u128::MAX - 1;
    let mut counter = CounterStruct::from_limbs(limbs);
    assert!(!counter.is_exhausted());
    assert_eq!(counter.get_and_add_one(), limbs);
    assert!(counter.is_exhausted());
}

#[test]
fn new_counter_is_not_exhausted() {
    assert!(!CounterStruct::new().is_exhausted());
}

#[test]
fn symbols_from_one_counter_differ() {
    let mut counter = CounterStruct::new();
    let a = Symbol::new(&mut counter);
    let b = Symbol::new(&mut counter);
    let c = Symbol::new(&mut counter);
    assert_ne!(a, b);
    assert_ne!(b, c);
    assert_ne!(a, c);
}

#[test]
fn symbols_of_the_same_value_are_equal() {
    let mut one = CounterStruct::from_limbs(limbs_with(u128::MAX, 0));
    let mut other = CounterStruct::from_limbs(limbs_with(0, 1));
    let _ = Symbol::new(&mut one);
    let after_carry = Symbol::new(&mut one);
    let same = Symbol::new(&mut other);
    assert_eq!(after_carry, same);
    assert_eq!(after_carry.clone(), same);
}

#[test]
fn symbols_differ_where_only_a_high_limb_differs() {
    let mut low = [0u128; 16];
    low[15] = 1;
    let mut high = [0u128; 16];
    high[15] = 2;
    let a = Symbol::new(&mut CounterStruct::from_limbs(low));
    let b = Symbol::new(&mut CounterStruct::from_limbs(high));
    assert_ne!(a, b);
}
