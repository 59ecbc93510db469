use kmc::helpers::binary_search;

#[test]
fn lookup_on_grid_point() {
    assert_eq!(binary_search(1, &[0, 1, 2, 3]), Some(1));
    assert_eq!(binary_search(0, &[0, 1, 2, 3]), Some(0));
    assert_eq!(binary_search(3, &[0, 1, 2, 3]), Some(3));
}

#[test]
fn lookup_between_grid_points() {
    // Ticks of half a time unit: the key 1.5 is tick 3 on the grid 0, 1, 2, 3.
    assert_eq!(binary_search(3, &[0, 2, 4, 6]), None);
    assert_eq!(binary_search(2, &[0, 2, 4, 6]), Some(1));
}

#[test]
fn lookup_out_of_range() {
    assert_eq!(binary_search(-1, &[0, 1, 2, 3]), None);
    assert_eq!(binary_search(4, &[0, 1, 2, 3]), None);
    assert_eq!(binary_search(0, &[]), None);
}

#[test]
fn lookup_resolves_ties_to_leftmost() {
    assert_eq!(binary_search(2, &[1, 2, 2, 2, 3]), Some(1));
    assert_eq!(binary_search(5, &[5, 5, 5, 5]), Some(0));
    assert_eq!(binary_search(7, &[1, 7, 7]), Some(1));
    assert_eq!(binary_search(7, &[7]), Some(0));
}
