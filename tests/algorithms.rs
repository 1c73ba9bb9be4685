use time_profiler::algorithms::{
    binary_digits, binary_search_value, generate_array, generate_binary_combinations, get_bin,
    get_highest_bit, permute,
    permute_backtrack, recursive_permute, recursive_permute2,
};

#[test]
fn highest_bit() {
    assert_eq!(get_highest_bit(0), 1);
    assert_eq!(get_highest_bit(1), 1);
    assert_eq!(get_highest_bit(5), 4);
    assert_eq!(get_highest_bit(8), 8);
    assert_eq!(get_highest_bit(-3), 1);
    assert_eq!(get_highest_bit(i32::MAX), 1 << 30);
}

#[test]
fn bin_padded() {
    assert_eq!(get_bin(5, 3), "101");
    assert_eq!(get_bin(5, 6), "000101");
    assert_eq!(get_bin(0, 1), "0");
    assert_eq!(get_bin(0, 4), "0000");
    assert_eq!(get_bin(-7, 2), "00");
    assert_eq!(get_bin(i32::MAX, 31), "1".repeat(31));
}

#[test]
fn binary_digits_lists_every_number() {
    assert_eq!(binary_digits(1), vec!["0", "1"]);
    assert_eq!(binary_digits(2), vec!["0", "01", "10", "11"]);
    let d = binary_digits(4);
    assert_eq!(d.len(), 16);
    assert_eq!(d[0], "0");
    assert_eq!(d[9], "1001");
    assert_eq!(d[15], "1111");
}

#[test]
fn binary_combinations() {
    assert!(generate_binary_combinations(0).is_empty());
    assert_eq!(generate_binary_combinations(1), vec!["0", "1"]);
    assert_eq!(generate_binary_combinations(2), vec!["00", "01", "10", "11"]);
    let c = generate_binary_combinations(3);
    assert_eq!(c.len(), 8);
    assert_eq!(c[5], "101");
}

#[test]
fn permutations_by_exchange() {
    assert_eq!(
        permute_backtrack(vec![1, 2, 3]),
        vec![
            vec![1, 2, 3],
            vec![1, 3, 2],
            vec![2, 1, 3],
            vec![2, 3, 1],
            vec![3, 2, 1],
            vec![3, 1, 2],
        ]
    );
    assert_eq!(permute_backtrack(vec![]), vec![Vec::<i32>::new()]);
    assert_eq!(permute_backtrack(vec![1, 2, 3, 4]).len(), 24);
}

#[test]
fn permutations_by_rotation() {
    assert_eq!(
        permute(vec![1, 2, 3]),
        vec![
            vec![3, 2, 1],
            vec![2, 3, 1],
            vec![1, 3, 2],
            vec![3, 1, 2],
            vec![2, 1, 3],
            vec![1, 2, 3],
        ]
    );
    assert_eq!(permute(vec![7]), vec![vec![7]]);
    assert!(permute(vec![]).is_empty());
    assert_eq!(permute(vec![1, 2, 3, 4]).len(), 24);
}

#[test]
fn recursive_permute_keeps_prefix_and_input() {
    let mut nums = vec![1, 2, 3];
    let mut result = vec![vec![9]];
    recursive_permute(&mut nums, &mut result, 1);
    assert_eq!(nums, vec![1, 2, 3]);
    assert_eq!(result, vec![vec![9], vec![1, 2, 3], vec![1, 3, 2]]);
    let mut result = Vec::new();
    recursive_permute(&mut nums, &mut result, 5);
    assert!(result.is_empty());
}

#[test]
fn recursive_permute2_restores_input() {
    let mut nums = vec![4, 5];
    let mut result = Vec::new();
    recursive_permute2(&mut nums, &mut result);
    assert_eq!(nums, vec![4, 5]);
    assert_eq!(result, vec![vec![5, 4], vec![4, 5]]);
}

#[test]
fn generated_array_is_a_turned_sorted_set() {
    for size in [2usize, 3, 10, 500] {
        let a = generate_array(size);
        assert!(a.len() >= 2 && a.len() <= size);
        assert!(a.contains(&0));
        let turns = (0..a.len()).filter(|&i| a[i] > a[(i + 1) % a.len()]).count();
        assert_eq!(turns, 1);
        let mut sorted = a.clone();
        sorted.sort();
        sorted.dedup();
        assert_eq!(sorted.len(), a.len());
        assert_ne!(a[0], sorted[0]);
    }
}

#[test]
fn search_in_turned_array() {
    let a = [5, 7, 9, 1, 3];
    for (i, v) in a.iter().enumerate() {
        assert_eq!(binary_search_value(&a, *v), i as i32);
    }
    assert_eq!(binary_search_value(&a, 4), -1);
    assert_eq!(binary_search_value(&a, 10), -1);
    assert_eq!(binary_search_value(&[1, 2, 3], 2), 1);
    assert_eq!(binary_search_value(&[1, 2, 3], 0), -1);
    assert_eq!(binary_search_value(&[42], 42), 0);
    assert_eq!(binary_search_value(&[42], 41), -1);
}

#[test]
fn search_finds_every_generated_value() {
    let a = generate_array(300);
    for (i, v) in a.iter().enumerate() {
        assert_eq!(binary_search_value(&a, *v), i as i32);
    }
    assert_eq!(binary_search_value(&a, -1), -1);
}
