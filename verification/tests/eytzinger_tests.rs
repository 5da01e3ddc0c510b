use bin_search_opt::eytzinger::{
    create_layout_eytzinger, lower_bound, lower_bound_prefetched, lower_bound_prefetched_branchless,
    upper_bound, upper_bound_prefetched, upper_bound_prefetched_branchless,
};

#[test]
fn test_eytzinger_layout_structure() {
    // Input: Sorted array [10, 20, 30, 40, 50, 60, 70]
    // Tree View:
    //       40
    //     /    \
    //   20      60
    //  /  \    /  \
    // 10  30  50  70
    //
    // BFS Order (Array): [40, 20, 60, 10, 30, 50, 70]

    let input = vec![10, 20, 30, 40, 50, 60, 70];
    let layout = create_layout_eytzinger(&input);

    assert_eq!(layout, vec![40, 20, 60, 10, 30, 50, 70]);
}

#[test]
fn test_eytzinger_layout_imperfect_tree() {
    // Input: [1, 2, 3, 4, 5] (Not a perfect power of 2)
    // Tree:
    //      4
    //    /   \
    //   2     5
    //  / \
    // 1   3
    //
    // BFS: [4, 2, 5, 1, 3]

    let input = vec![1, 2, 3, 4, 5];
    let layout = create_layout_eytzinger(&input);

    assert_eq!(layout, vec![4, 2, 5, 1, 3]);
}

#[test]
fn eytzinger_test_lower_bound_correctness() {
    let data = vec![10, 20, 20, 20, 30, 40];
    let data = create_layout_eytzinger(&data);

    // 1. Target present multiple times -> First occurrence
    assert_eq!(data[lower_bound(&data, &20).unwrap()], 20);

    // 2. Target present once
    assert_eq!(data[lower_bound(&data, &30).unwrap()], 30);

    // 3. Target missing (insert in middle)
    // 25 is > 20 but < 30. Should return index of 30 (idx 4).
    assert_eq!(data[lower_bound(&data, &25).unwrap()], 30);

    // 4. Target smaller than all (insert at start)
    assert_eq!(data[lower_bound(&data, &5).unwrap()], 10);

    // 5. Target larger than all (insert at end)
    assert_eq!(lower_bound(&data, &50), None);
}

#[test]
fn eytzinger_test_upper_bound_correctness() {
    let data = vec![10, 20, 20, 20, 30, 40];
    let data = create_layout_eytzinger(&data);

    // 1. Target present multiple times -> First element STRICTLY greater
    assert_eq!(data[upper_bound(&data, &20).unwrap()], 30);

    // 2. Target present once
    assert_eq!(data[upper_bound(&data, &30).unwrap()], 40);

    // 3. Target missing (behavior identical to lower_bound for gaps)
    assert_eq!(data[upper_bound(&data, &25).unwrap()], 30);

    // 5. Target larger than all (insert at end)
    assert_eq!(upper_bound(&data, &50), None);
}

#[test]
fn test_lower_bound_prefetched_correctness() {
    let data = vec![10, 20, 20, 20, 30, 40];
    let data = create_layout_eytzinger(&data);

    // 1. Target present multiple times -> First occurrence
    assert_eq!(data[lower_bound_prefetched(&data, &20).unwrap()], 20);

    // 2. Target present once
    assert_eq!(data[lower_bound_prefetched(&data, &30).unwrap()], 30);

    // 3. Target missing (insert in middle)
    // 25 is > 20 but < 30. Should return index of 30 (idx 4).
    assert_eq!(data[lower_bound_prefetched(&data, &25).unwrap()], 30);

    // 4. Target smaller than all (insert at start)
    assert_eq!(data[lower_bound_prefetched(&data, &5).unwrap()], 10);

    // 5. Target larger than all (insert at end)
    assert_eq!(lower_bound_prefetched(&data, &50), None);
}

#[test]
fn test_upper_bound_prefetched_correctness() {
    let data = vec![10, 20, 20, 20, 30, 40];
    let data = create_layout_eytzinger(&data);

    // 1. Target present multiple times -> First element STRICTLY greater
    assert_eq!(data[upper_bound_prefetched(&data, &20).unwrap()], 30);

    // 2. Target present once
    assert_eq!(data[upper_bound_prefetched(&data, &30).unwrap()], 40);

    // 3. Target missing (behavior identical to lower_bound for gaps)
    assert_eq!(data[upper_bound_prefetched(&data, &25).unwrap()], 30);

    // 5. Target larger than all (insert at end)
    assert_eq!(upper_bound_prefetched(&data, &50), None);
}

#[test]
fn test_lower_bound_prefetched_branchless_correctness() {
    let data = vec![10, 20, 20, 20, 30, 40];
    let data = create_layout_eytzinger(&data);

    // 1. Target present multiple times -> First occurrence
    assert_eq!(data[lower_bound_prefetched_branchless(&data, &20).unwrap()], 20);

    // 2. Target present once
    assert_eq!(data[lower_bound_prefetched_branchless(&data, &30).unwrap()], 30);

    // 3. Target missing (insert in middle)
    // 25 is > 20 but < 30. Should return index of 30 (idx 4).
    assert_eq!(data[lower_bound_prefetched_branchless(&data, &25).unwrap()], 30);

    // 4. Target smaller than all (insert at start)
    assert_eq!(data[lower_bound_prefetched_branchless(&data, &5).unwrap()], 10);

    // 5. Target larger than all (insert at end)
    assert_eq!(lower_bound_prefetched_branchless(&data, &50), None);
}

#[test]
fn test_upper_bound_prefetched_branchless_correctness() {
    let data = vec![10, 20, 20, 20, 30, 40];
    let data = create_layout_eytzinger(&data);

    // 1. Target present multiple times -> First element STRICTLY greater
    assert_eq!(data[upper_bound_prefetched_branchless(&data, &20).unwrap()], 30);

    // 2. Target present once
    assert_eq!(data[upper_bound_prefetched_branchless(&data, &30).unwrap()], 40);

    // 3. Target missing (behavior identical to lower_bound for gaps)
    assert_eq!(data[upper_bound_prefetched_branchless(&data, &25).unwrap()], 30);

    // 5. Target larger than all (insert at end)
    assert_eq!(upper_bound_prefetched_branchless(&data, &50), None);
}
