use bin_search_opt::stree::{create_layout_stree, lower_bound, upper_bound};
use rand::RngExt;

// Helper to find "Truth" for lower_bound using std library
fn std_lower_bound(data: &[i32], target: i32) -> Option<usize> {
    // lower_bound finds the first element where (x < target) is FALSE.
    // i.e., x >= target.
    let idx = data.partition_point(|&x| x < target);
    if idx < data.len() {
        Some(idx)
    } else {
        None
    }
}

// Helper to find "Truth" using std library
fn std_upper_bound(data: &[i32], target: i32) -> Option<usize> {
    // partition_point returns the index of the first element satisfying the
    // predicate. For upper_bound, we want the first element where (x <=
    // target) is FALSE. i.e., x > target.
    let idx = data.partition_point(|&x| x <= target);
    if idx < data.len() {
        Some(idx)
    } else {
        None
    }
}

#[test]
fn test_stree_layout_structure() {
    let input = vec![
        1, 2, 6, 7, 17, 19, 21, 24, 29, 33, 35, 38, 40, 45, 47, 49, 52, 54, 55, 61, 62, 64, 75,
        76, 77, 79, 81, 83, 84, 85, 88, 96,
    ];
    let layout = create_layout_stree(&input);

    assert_eq!(
        layout,
        [
            52, 54, 55, 61, 62, 64, 75, 76, 77, 79, 81, 83, 84, 85, 88, 96, 1, 2, 6, 7, 17, 19,
            21, 24, 29, 33, 35, 38, 40, 45, 47, 49
        ]
    );

    let input = vec![
        1, 2, 6, 7, 17, 19, 21, 24, 29, 33, 35, 38, 40, 45, 47, 49, 52, 54, 55, 61, 62, 64, 75,
        76, 77, 79, 81,
    ];
    let layout = create_layout_stree(&input);

    assert_eq!(
        layout,
        [
            38, 40, 45, 47, 49, 52, 54, 55, 61, 62, 64, 75, 76, 77, 79, 81, 1, 2, 6, 7, 17, 19,
            21, 24, 29, 33, 35, 2147483647, 2147483647, 2147483647, 2147483647, 2147483647
        ]
    );
}

#[test]
fn test_lower_bound_basic() {
    // Layout: [10, 20, 20, 20, 30]
    let data = vec![10, 20, 20, 20, 30];
    let layout = create_layout_stree(&data);

    // Case 1: Target smaller than all (5) -> Returns 10
    // (First element >= 5 is 10)
    let res = lower_bound(&layout, &5).unwrap();
    assert_eq!(layout[res], 10, "Target 5 should find 10");

    // Case 2: Target exact match (10) -> Returns 10
    let res = lower_bound(&layout, &10).unwrap();
    assert_eq!(layout[res], 10, "Target 10 should find 10");

    // Case 3: Target duplicates (20) -> Returns 20
    // (It should find one of the 20s)
    let res = lower_bound(&layout, &20).unwrap();
    assert_eq!(layout[res], 20, "Target 20 should find 20");

    // Case 4: Target in-between (25) -> Returns 30
    // (First element >= 25 is 30)
    let res = lower_bound(&layout, &25).unwrap();
    assert_eq!(layout[res], 30, "Target 25 should find 30");

    // Case 5: Target larger than all (40) -> Returns None
    let res = lower_bound(&layout, &40);
    assert!(res.is_none(), "Target 40 should return None");
}

#[test]
fn test_lower_bound_fuzzy() {
    let mut rng = rand::rng();

    // 1. Generate Random Data with duplicates
    let n: usize = 2000;
    let mut data: Vec<i32> = (0..n).map(|_| rng.random_range(0..100)).collect();
    data.sort_unstable(); // Must be sorted

    let layout = create_layout_stree(&data);

    // 2. Test random targets
    for _ in 0..1000 {
        let target: i32 = rng.random_range(0..110);

        // Get Truth
        let truth_idx = std_lower_bound(&data, target);
        let truth_val = truth_idx.map(|i| data[i]);

        // Get S-Tree Result
        let stree_idx = lower_bound(&layout, &target);
        let stree_val = stree_idx.map(|i| layout[i]);

        assert_eq!(
            stree_val, truth_val,
            "Mismatch for target {}. Std: {:?}, Stree: {:?}",
            target, truth_val, stree_val
        );
    }
}

#[test]
fn test_upper_bound_basic() {
    // Layout: [10, 20, 20, 20, 30]
    // Note: We need enough elements or padding to handle the block logic,
    // but create_layout_stree handles that.
    let data = vec![10, 20, 20, 20, 30];
    let layout = create_layout_stree(&data);

    // Case 1: Target smaller than all (5) -> Returns 10
    let res = upper_bound(&layout, &5).unwrap();
    assert_eq!(layout[res], 10, "Target 5 should find 10");

    // Case 2: Target exists (10) -> Returns 20 (Strictly greater)
    let res = upper_bound(&layout, &10).unwrap();
    assert_eq!(layout[res], 20, "Target 10 should find 20");

    // Case 3: Target duplicates (20) -> Returns 30 (Skip all 20s)
    let res = upper_bound(&layout, &20).unwrap();
    assert_eq!(layout[res], 30, "Target 20 should find 30");

    // Case 4: Target exists (30) -> Returns None (End of array)
    let res = upper_bound(&layout, &30);
    assert!(res.is_none(), "Target 30 should return None");

    // Case 5: Target huge (100) -> Returns None
    let res = upper_bound(&layout, &100);
    assert!(res.is_none(), "Target 100 should return None");
}

#[test]
fn test_upper_bound_fuzzy() {
    let mut rng = rand::rng();

    // 1. Generate Random Data with duplicates
    let n: usize = 2000;
    let mut data: Vec<i32> = (0..n).map(|_| rng.random_range(0..100)).collect();
    data.sort_unstable(); // Must be sorted

    let layout = create_layout_stree(&data);

    // 2. Test random targets
    for _ in 0..1000 {
        let target: i32 = rng.random_range(0..110);

        // Get Truth
        let truth_idx = std_upper_bound(&data, target);
        let truth_val = truth_idx.map(|i| data[i]);

        // Get S-Tree Result
        let stree_idx = upper_bound(&layout, &target);
        let stree_val = stree_idx.map(|i| layout[i]);

        assert_eq!(
            stree_val, truth_val,
            "Mismatch for target {}. Std: {:?}, Stree: {:?}",
            target, truth_val, stree_val
        );
    }
}
