use pre_annotation::lcs::{DiffComponent, LcsTable};

#[test]
fn test_lcs_table() {
    let a: Vec<_> = "gac".chars().collect();
    let b: Vec<_> = "agcat".chars().collect();

    let actual_lengths = LcsTable::new(&a, &b).lengths;
    let expected_lengths = vec![
        vec![0, 0, 0, 0, 0, 0],
        vec![0, 0, 1, 1, 1, 1],
        vec![0, 1, 1, 1, 2, 2],
        vec![0, 1, 1, 2, 2, 2],
    ];

    assert_eq!(expected_lengths, actual_lengths);
}

#[test]
fn lcs_recovers_subsequence_with_indices() {
    let a: Vec<char> = "a--b---c".chars().collect();
    let b: Vec<char> = "abc".chars().collect();
    let table = LcsTable::new(&a, &b);
    let lcs = table.longest_common_subsequence();
    assert_eq!(vec![(&'a', (0, 0)), (&'b', (3, 1)), (&'c', (7, 2))], lcs);
}

#[test]
fn lcs_of_empty_input_is_empty() {
    let a: Vec<u32> = vec![];
    let b: Vec<u32> = vec![1, 2, 3];
    assert!(LcsTable::new(&a, &b).longest_common_subsequence().is_empty());
    assert!(LcsTable::new(&b, &a).longest_common_subsequence().is_empty());
    assert_eq!(LcsTable::new(&a, &b).lengths, vec![vec![0, 0, 0, 0]]);
}

#[test]
fn lcs_length_equals_last_cell() {
    let a: Vec<char> = "gac".chars().collect();
    let b: Vec<char> = "agcat".chars().collect();
    let table = LcsTable::new(&a, &b);
    let lcs = table.longest_common_subsequence();
    assert_eq!(lcs.len(), table.lengths[3][5]);
    assert_eq!(lcs.len(), 2);
}

#[test]
fn lcs_pairs_increase_and_match() {
    let a: Vec<u32> = vec![3, 1, 4, 1, 5, 9, 2, 6, 5, 3];
    let b: Vec<u32> = vec![2, 7, 1, 8, 2, 8, 1, 8, 2, 8, 4, 5, 9];
    let table = LcsTable::new(&a, &b);
    let lcs = table.longest_common_subsequence();
    assert_eq!(lcs.len(), table.lengths[a.len()][b.len()]);
    for k in 0..lcs.len() {
        let (value, (ia, ib)) = lcs[k];
        assert_eq!(*value, a[ia]);
        assert_eq!(a[ia], b[ib]);
        if k > 0 {
            let (_, (pa, pb)) = lcs[k - 1];
            assert!(pa < ia && pb < ib);
        }
    }
}

#[test]
fn lcs_tie_consumes_first_sequence() {
    // On a tie the backtracking steps back in `a`, so the later `x` of `b` is used.
    let a: Vec<char> = "x".chars().collect();
    let b: Vec<char> = "xx".chars().collect();
    let table = LcsTable::new(&a, &b);
    assert_eq!(vec![(&'x', (0, 1))], table.longest_common_subsequence());
}

#[test]
fn diff_components_compare_by_value() {
    assert_eq!(DiffComponent::Unchanged('a', 'a'), DiffComponent::Unchanged('a', 'a'));
    assert_ne!(DiffComponent::Insertion('a'), DiffComponent::Deletion('a'));
}
