use rust_pg::grouping::{group_positions, nested_join};

#[test]
fn positions_fall_into_groups_of_equal_key() {
    let keys: Vec<i32> = vec![7, 3, 7, 9, 3, 7];
    let among: Vec<usize> = vec![0, 1, 2, 3, 4, 5];
    assert_eq!(
        group_positions(&keys, &among),
        vec![vec![0, 2, 5], vec![1, 4], vec![3]]
    );
}

#[test]
fn groups_come_in_the_order_their_keys_first_occur() {
    let keys: Vec<i32> = vec![7, 3, 7, 9, 3, 7];
    let among: Vec<usize> = vec![4, 3, 0, 5];
    assert_eq!(
        group_positions(&keys, &among),
        vec![vec![4], vec![3], vec![0, 5]]
    );
}

#[test]
fn no_positions_make_no_groups() {
    let keys: Vec<i32> = vec![7, 3];
    assert_eq!(group_positions(&keys, &Vec::new()), Vec::<Vec<usize>>::new());
    assert_eq!(group_positions(&Vec::new(), &Vec::new()), Vec::<Vec<usize>>::new());
}

#[test]
fn rows_of_one_key_make_one_group() {
    let keys: Vec<i32> = vec![-4, -4, -4];
    assert_eq!(group_positions(&keys, &vec![2, 0, 1]), vec![vec![2, 0, 1]]);
}

#[test]
fn every_position_is_held_by_exactly_one_group() {
    let keys: Vec<i32> = (0..40).map(|i: i32| (i * 7 + 3) % 5).collect();
    let among: Vec<usize> = (0..40).collect();
    let groups = group_positions(&keys, &among);
    assert_eq!(groups.len(), 5);
    let mut held: Vec<usize> = groups.iter().flatten().copied().collect();
    held.sort();
    assert_eq!(held, among);
    for group in &groups {
        assert!(!group.is_empty());
        for position in group {
            assert_eq!(keys[*position], keys[group[0]]);
        }
        assert!(group.windows(2).all(|pair| pair[0] < pair[1]));
    }
    for (g, first) in groups.iter().enumerate() {
        for second in &groups[g + 1..] {
            assert_ne!(keys[first[0]], keys[second[0]]);
            assert!(first[0] < second[0]);
        }
    }
}

#[test]
fn joined_rows_nest_by_address_and_then_by_author() {
    let rows: Vec<(i32, i32)> = vec![(1, 10), (2, 20), (1, 10), (1, 11), (2, 20), (3, 10)];
    assert_eq!(
        nested_join(&rows),
        vec![
            vec![vec![0, 2], vec![3]],
            vec![vec![1, 4]],
            vec![vec![5]],
        ]
    );
}

#[test]
fn no_joined_rows_nest_into_nothing() {
    assert_eq!(nested_join(&Vec::new()), Vec::<Vec<Vec<usize>>>::new());
}

#[test]
fn an_author_at_two_addresses_is_grouped_under_each() {
    let rows: Vec<(i32, i32)> = vec![(5, 1), (6, 1), (5, 1), (6, 2)];
    assert_eq!(
        nested_join(&rows),
        vec![vec![vec![0, 2]], vec![vec![1], vec![3]]]
    );
}
