use shuf::order::shuffled_order;

#[test]
fn draws_of_zero_leave_the_order_as_it_is() {
    assert_eq!(shuffled_order(4, &vec![0, 0, 0, 0]), vec![0, 1, 2, 3]);
    assert_eq!(shuffled_order(3, &vec![3, 4, 7]), vec![0, 1, 2]);
}

#[test]
fn each_step_exchanges_with_the_place_that_its_draw_picks() {
    assert_eq!(shuffled_order(3, &vec![2, 1, 0]), vec![2, 0, 1]);
    assert_eq!(shuffled_order(4, &vec![1, 1, 1, 1]), vec![1, 2, 3, 0]);
    assert_eq!(shuffled_order(4, &vec![7, 5, 9, 2]), vec![3, 0, 1, 2]);
    assert_eq!(shuffled_order(2, &vec![u64::MAX, 5]), vec![1, 0]);
}

#[test]
fn missing_draws_count_as_zero() {
    assert_eq!(shuffled_order(4, &vec![3]), vec![3, 1, 2, 0]);
    assert_eq!(shuffled_order(3, &Vec::new()), vec![0, 1, 2]);
    assert_eq!(shuffled_order(2, &vec![1, 0, 9, 9]), vec![1, 0]);
}

#[test]
fn no_lines_no_order() {
    assert_eq!(shuffled_order(0, &vec![5, 6]), Vec::<usize>::new());
    assert_eq!(shuffled_order(1, &vec![5]), vec![0]);
}

#[test]
fn every_index_comes_exactly_once() {
    let mut draws = Vec::new();
    let mut state: u64 = 0x9E37_79B9_7F4A_7C15;
    for _ in 0..1000 {
        state ^= state << 13;
        state ^= state >> 7;
        state ^= state << 17;
        draws.push(state);
    }
    let order = shuffled_order(1000, &draws);
    let mut seen = vec![false; 1000];
    for index in &order {
        assert!(!seen[*index]);
        seen[*index] = true;
    }
    assert_eq!(order.len(), 1000);
    assert!(order.iter().enumerate().any(|(place, index)| place != *index));
}
