use bin_search_opt::basics;
use bin_search_opt::eytzinger;
use bin_search_opt::stree;

/// In-order traversal of an Eytzinger array's implicit tree (root 0,
/// children 2k+1 and 2k+2, recursing while the index is in range).
fn inorder_walk(layout: &[i32], k: usize, out: &mut Vec<i32>) {
    if k >= layout.len() {
        return;
    }
    inorder_walk(layout, 2 * k + 1, out);
    out.push(layout[k]);
    inorder_walk(layout, 2 * k + 2, out);
}

/// Sorted sample data with duplicates: 0, 0, 3, 3, 6, 6, ...
fn sample(n: usize) -> Vec<i32> {
    (0..n).map(|i| (i as i32 / 2) * 3).collect()
}

#[test]
fn eytzinger_inorder_reproduces_input() {
    for n in 0..60usize {
        let data = sample(n);
        let layout = eytzinger::create_layout_eytzinger(&data);
        assert_eq!(layout.len(), n);
        let mut walked: Vec<i32> = Vec::new();
        inorder_walk(&layout, 0, &mut walked);
        assert_eq!(walked, data);
    }
}

#[test]
fn builds_are_idempotent() {
    let data = sample(333);
    assert_eq!(
        eytzinger::create_layout_eytzinger(&data),
        eytzinger::create_layout_eytzinger(&data)
    );
    assert_eq!(stree::create_layout_stree(&data), stree::create_layout_stree(&data));
}

#[test]
fn all_engines_match_oracle() {
    for n in [0usize, 1, 2, 5, 15, 16, 17, 31, 32, 33, 100, 289, 300] {
        let data = sample(n);
        let eytz = eytzinger::create_layout_eytzinger(&data);
        let stree_layout = stree::create_layout_stree(&data);
        let top: i32 = if n == 0 { 5 } else { data[n - 1] + 2 };
        for target in -1..=top {
            let truth_lower = {
                let i = basics::lower_bound(&data, &target);
                if i < data.len() {
                    Some(data[i])
                } else {
                    None
                }
            };
            let truth_upper = {
                let i = basics::upper_bound(&data, &target);
                if i < data.len() {
                    Some(data[i])
                } else {
                    None
                }
            };
            assert_eq!(eytzinger::lower_bound(&eytz, &target).map(|i| eytz[i]), truth_lower);
            assert_eq!(eytzinger::upper_bound(&eytz, &target).map(|i| eytz[i]), truth_upper);
            assert_eq!(
                eytzinger::lower_bound_prefetched_branchless(&eytz, &target).map(|i| eytz[i]),
                truth_lower
            );
            assert_eq!(
                stree::lower_bound(&stree_layout, &target).map(|i| stree_layout[i]),
                truth_lower
            );
            assert_eq!(
                stree::upper_bound(&stree_layout, &target).map(|i| stree_layout[i]),
                truth_upper
            );
        }
    }
}

#[test]
fn boundary_behavior() {
    let data = vec![10, 20, 20, 20, 30];
    let eytz = eytzinger::create_layout_eytzinger(&data);
    let st = stree::create_layout_stree(&data);

    // Target smaller than all elements: the first element.
    assert_eq!(basics::lower_bound(&data, &-100), 0);
    assert_eq!(eytz[eytzinger::lower_bound(&eytz, &-100).unwrap()], 10);
    assert_eq!(st[stree::lower_bound(&st, &-100).unwrap()], 10);

    // Target larger than all elements: absent.
    assert_eq!(basics::lower_bound(&data, &99), data.len());
    assert_eq!(eytzinger::lower_bound(&eytz, &99), None);
    assert_eq!(stree::lower_bound(&st, &99), None);

    // Target present three times: lower bound gives the first occurrence,
    // upper bound the index just past the last occurrence.
    assert_eq!(basics::lower_bound(&data, &20), 1);
    assert_eq!(basics::upper_bound(&data, &20), 4);
}

#[test]
fn scenario_duplicates_lower_bound() {
    let data = vec![10, 20, 20, 20, 30, 40];
    assert_eq!(basics::lower_bound(&data, &20), 1);

    let eytz = eytzinger::create_layout_eytzinger(&data);
    let st = stree::create_layout_stree(&data);
    assert_eq!(eytz[eytzinger::lower_bound(&eytz, &20).unwrap()], 20);
    assert_eq!(st[stree::lower_bound(&st, &20).unwrap()], 20);
}

#[test]
fn scenario_padding_of_partial_block() {
    let data = sample(27);
    let layout = stree::create_layout_stree(&data);
    assert_eq!(layout.len(), 32);
    for slot in 27..32usize {
        assert_eq!(layout[slot], i32::MAX);
    }
}

#[test]
fn scenario_upper_bound_of_maximum_is_absent() {
    let data = vec![10, 20, 20, 20, 30];
    let eytz = eytzinger::create_layout_eytzinger(&data);
    let st = stree::create_layout_stree(&data);
    assert_eq!(eytzinger::upper_bound(&eytz, &30), None);
    assert_eq!(stree::upper_bound(&st, &30), None);
}

#[test]
fn distribution_concrete_values() {
    // A leaf block keeps everything: no children.
    assert_eq!(stree::distribute_child_sizes(16), vec![0; 17]);
    // 32 elements: 16 pivots, the other 16 all fit under the first child.
    let sizes = stree::distribute_child_sizes(32);
    assert_eq!(sizes[0], 16);
    assert_eq!(&sizes[1..], &[0; 16]);
    // 100 elements: 84 spread left to right at 16 per child.
    let sizes = stree::distribute_child_sizes(100);
    assert_eq!(sizes, vec![16, 16, 16, 16, 16, 4, 0, 0, 0, 0, 0, 0, 0, 0, 0, 0, 0]);
}

#[test]
fn empty_inputs() {
    let empty: Vec<i32> = Vec::new();
    assert_eq!(eytzinger::create_layout_eytzinger(&empty), empty);
    assert_eq!(stree::create_layout_stree(&empty), empty);
    assert_eq!(eytzinger::lower_bound(&empty, &7), None);
    assert_eq!(eytzinger::upper_bound(&empty, &7), None);
    assert_eq!(stree::lower_bound(&empty, &7), None);
    assert_eq!(stree::upper_bound(&empty, &7), None);
}
