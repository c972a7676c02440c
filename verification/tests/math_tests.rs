use itertools::Itertools;
use rubikscube::{
    binomial, combination_index, factorial, is_even_permutation, is_even_permutation_array,
    is_odd_permutation, nth_combination, nth_permutation, permutation_index,
};

#[test]
fn test_factorial() {
    for i in 0..=20 {
        assert_eq!(factorial(i), (1..=i).product::<i64>());
    }
}

#[test]
fn test_binomial() {
    assert_eq!(binomial(5, 2), 10);
    assert_eq!(binomial(10, 3), 120);
    assert_eq!(binomial(0, 0), 1);
    assert_eq!(binomial(6, 0), 1);
    assert_eq!(binomial(6, 6), 1);
    assert_eq!(binomial(6, 7), 0);
    assert_eq!(binomial(12, 6), 924);
    assert_eq!(binomial(20, 10), 184756);
}

#[test]
fn test_combination_index() {
    assert_eq!(combination_index(1, &[0]), 0);

    assert_eq!(combination_index(2, &[0]), 0);
    assert_eq!(combination_index(2, &[1]), 1);
    assert_eq!(combination_index(2, &[0, 1]), 0);

    assert_eq!(combination_index(5, &[0, 1]), 0);
    assert_eq!(combination_index(5, &[0, 2]), 1);
    assert_eq!(combination_index(5, &[0, 3]), 2);
    assert_eq!(combination_index(5, &[0, 4]), 3);
    assert_eq!(combination_index(5, &[1, 2]), 4);
    assert_eq!(combination_index(5, &[1, 3]), 5);
    assert_eq!(combination_index(5, &[1, 4]), 6);
    assert_eq!(combination_index(5, &[2, 3]), 7);
    assert_eq!(combination_index(5, &[2, 4]), 8);
    assert_eq!(combination_index(5, &[3, 4]), 9);
    assert_eq!(combination_index(5, &[0, 1, 2]), 0);
    assert_eq!(combination_index(5, &[0, 1, 3]), 1);
    assert_eq!(combination_index(5, &[0, 1, 4]), 2);
    assert_eq!(combination_index(5, &[0, 2, 3]), 3);
    assert_eq!(combination_index(5, &[0, 2, 4]), 4);
    assert_eq!(combination_index(5, &[0, 3, 4]), 5);
    assert_eq!(combination_index(5, &[1, 2, 3]), 6);
    assert_eq!(combination_index(5, &[1, 2, 4]), 7);
    assert_eq!(combination_index(5, &[1, 3, 4]), 8);
    assert_eq!(combination_index(5, &[2, 3, 4]), 9);
    assert_eq!(combination_index(5, &[0, 1, 2, 3]), 0);
    assert_eq!(combination_index(5, &[0, 1, 2, 4]), 1);
    assert_eq!(combination_index(5, &[0, 1, 3, 4]), 2);
    assert_eq!(combination_index(5, &[0, 2, 3, 4]), 3);
    assert_eq!(combination_index(5, &[1, 2, 3, 4]), 4);
    assert_eq!(combination_index(5, &[0, 1, 2, 3, 4]), 0);
}

#[test]
fn test_nth_combination() {
    for n in 1..=10 {
        for k in 1..=n {
            let size = binomial(n, k);
            for index in 0..size {
                let comb = nth_combination(n, k, index);
                assert_eq!(combination_index(n, &comb), index);
            }
        }
    }
}

#[test]
fn test_nth_permutation() {
    // Compare with the permutations that itertools yields in order
    for size in 1..=8 {
        let base: Vec<usize> = (0..size).collect();

        for (index, expected_perm) in base.iter().permutations(size).enumerate() {
            let computed_perm = nth_permutation(index as i64, size);
            let expected_u8: Vec<u8> = expected_perm.into_iter().map(|&x| x as u8).collect();
            assert_eq!(computed_perm, expected_u8);
        }
    }
}

#[test]
fn test_permutation_index() {
    for size in 1..=8 {
        let base: Vec<usize> = (0..size).collect();
        for (index, perm) in base.iter().permutations(size).enumerate() {
            let perm_vec: Vec<u8> = perm.into_iter().map(|&x| x as u8).collect();
            assert_eq!(permutation_index(&perm_vec), index as i64);
        }
    }
}

#[test]
fn test_is_even_permutation() {
    // Test that both methods give the same result
    for size in 1..=6 {
        let base: Vec<usize> = (0..size).collect();
        for (index, perm) in base.iter().permutations(size).enumerate() {
            let perm_vec: Vec<u8> = perm.into_iter().map(|&x| x as u8).collect();
            let even_from_array = is_even_permutation_array(&perm_vec);
            let even_from_index = is_even_permutation(index as i64);
            assert_eq!(even_from_array, even_from_index);
        }
    }

    // Test specific known cases
    assert!(is_even_permutation_array(&[0, 1, 2])); // identity is even
    assert!(!is_even_permutation_array(&[0, 2, 1])); // one swap is odd
    assert!(!is_even_permutation_array(&[1, 0, 2])); // one swap is odd
    assert!(is_even_permutation_array(&[2, 0, 1])); // two swaps is even
}

#[test]
fn test_permutation_index_half_is_bijection() {
    // Tests that permutation_index/2 is a bijection,
    // between even permutations and [0, factorial(n)/2);
    // and between odd permutations and [0, factorial(n)/2).
    for size in 0..=10 {
        let mut even_permutations = 0;
        let mut odd_permutations = 0;

        for i in 0..factorial(size as i64) {
            let p = nth_permutation(i, size);
            if is_even_permutation_array(&p) {
                assert_eq!(permutation_index(&p) / 2, even_permutations);
                even_permutations += 1;
            } else {
                assert_eq!(permutation_index(&p) / 2, odd_permutations);
                odd_permutations += 1;
            }
        }
    }
}

#[test]
fn test_binomial_beyond_the_table() {
    assert_eq!(binomial(13, 0), 1);
    assert_eq!(binomial(13, 1), 13);
    assert_eq!(binomial(13, 6), 1716);
    assert_eq!(binomial(13, 13), 1);
    assert_eq!(binomial(13, 14), 0);
    assert_eq!(binomial(30, 15), 155117520);
    assert_eq!(binomial(40, 20), 137846528820);
}

#[test]
fn test_nth_combination_out_of_range_choice() {
    assert_eq!(nth_combination(5, 0, 0), Vec::<u8>::new());
    assert_eq!(nth_combination(5, 6, 0), Vec::<u8>::new());
    assert_eq!(nth_combination(12, 4, 494), vec![8, 9, 10, 11]);
    assert_eq!(nth_combination(12, 4, 0), vec![0, 1, 2, 3]);
}

#[test]
fn test_nth_permutation_exact() {
    assert_eq!(nth_permutation(0, 0), Vec::<u8>::new());
    assert_eq!(nth_permutation(0, 4), vec![0, 1, 2, 3]);
    assert_eq!(nth_permutation(23, 4), vec![3, 2, 1, 0]);
    assert_eq!(nth_permutation(7, 4), vec![1, 0, 3, 2]);
    assert_eq!(permutation_index(&[1, 0, 3, 2]), 7);
    assert_eq!(permutation_index(&[7, 6, 5, 4, 3, 2, 1, 0]), 40319);
}

#[test]
fn test_permutation_round_trip() {
    for size in 0..=7usize {
        for i in 0..factorial(size as i64) {
            assert_eq!(permutation_index(&nth_permutation(i, size)), i);
        }
    }
}

#[test]
fn test_parity_from_index_and_from_array() {
    for size in 0..=7usize {
        for i in 0..factorial(size as i64) {
            let p = nth_permutation(i, size);
            assert_eq!(is_even_permutation(i), is_even_permutation_array(&p));
            assert_eq!(is_odd_permutation(i), !is_even_permutation_array(&p));
        }
    }
    assert!(is_even_permutation(0));
    assert!(is_odd_permutation(1));
    assert!(is_even_permutation(-5));
}
