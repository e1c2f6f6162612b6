use diskann::estimate::estimate_node_visited_set_size;

fn reference(max_degree: usize, search_list_size: usize) -> usize {
    (1.1_f64 * max_degree as f64 * 1.3_f64 * search_list_size as f64).ceil() as usize
}

#[test]
fn estimate_is_the_binary64_formula() {
    let edges = [
        0,
        1,
        2,
        3,
        7,
        10,
        32,
        50,
        64,
        100,
        127,
        1000,
        4095,
        65_537,
        1 << 30,
        (1 << 53) - 1,
        1 << 53,
        (1 << 53) + 1,
        (1 << 54) + 3,
        (1 << 62) + 12_345,
        usize::MAX - 1,
        usize::MAX,
    ];
    for &degree in edges.iter() {
        for &length in edges.iter() {
            assert_eq!(
                estimate_node_visited_set_size(degree, length),
                reference(degree, length),
                "{degree} x {length}"
            );
        }
    }
    for degree in 0..200 {
        for length in 0..200 {
            assert_eq!(
                estimate_node_visited_set_size(degree, length),
                reference(degree, length)
            );
        }
    }
}

#[test]
fn estimate_of_given_sizes() {
    assert_eq!(estimate_node_visited_set_size(0, 0), 0);
    assert_eq!(estimate_node_visited_set_size(1, 1), 2);
    assert_eq!(estimate_node_visited_set_size(10, 10), 143);
    assert_eq!(estimate_node_visited_set_size(100, 100), 14_301);
    assert_eq!(estimate_node_visited_set_size(usize::MAX, usize::MAX), usize::MAX);
}

#[test]
fn estimate_is_an_upper_bound_of_the_formula() {
    for degree in 0..300 {
        for length in 0..300 {
            let size = estimate_node_visited_set_size(degree, length);
            let formula = 143 * degree * length;
            assert!(formula <= 100 * size && 100 * size <= formula + 100);
        }
    }
}

#[test]
fn estimate_grows_with_degree_and_length() {
    let mut last = 0;
    for size in [0, 1, 2, 3, 100, 101, (1 << 53) - 1, (1 << 53) + 1, usize::MAX] {
        let by_degree = estimate_node_visited_set_size(size, 3);
        let by_length = estimate_node_visited_set_size(7, size);
        assert!(by_degree >= estimate_node_visited_set_size(size / 2, 3));
        assert!(by_length >= last);
        last = by_length;
    }
}
