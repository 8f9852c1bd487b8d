use std::collections::VecDeque;

use itertools::Itertools;
use witness_resolver::Place;

#[test]
fn playground() {
    let mut v = VecDeque::with_capacity(4);

    v.push_front(1);
    v.push_front(2);
    v.push_front(3);
    v.push_front(4);

    println!("{:#?}", v.iter().take(5).collect_vec());

    assert_eq!(4, v.len());
}

#[test]
fn place_keeps_its_index() {
    let p = Place::from_variable(17);
    assert_eq!(17, p.raw_ix());
    assert_eq!(17u64, p.as_any_index());
}
