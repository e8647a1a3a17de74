use component_ranges::{condense_ranges, find_number_ranges};

#[test]
fn test_empty_vector() {
    let numbers: Vec<u32> = vec![];
    let result = find_number_ranges(numbers);
    assert!(result.is_empty());
}

#[test]
fn test_single_element() {
    let numbers = vec![1];
    let result = find_number_ranges(numbers);
    assert_eq!(result, vec![vec![1]]);
}

#[test]
fn test_consecutive_numbers() {
    let numbers = vec![1, 2, 3, 4];
    let result = find_number_ranges(numbers);
    assert_eq!(result, vec![vec![1, 2, 3, 4]]);
}

#[test]
fn test_non_consecutive_numbers() {
    let numbers = vec![1, 3, 5, 7];
    let result = find_number_ranges(numbers);
    assert_eq!(result, vec![vec![1], vec![3], vec![5], vec![7]]);
}

#[test]
fn test_mixed_numbers() {
    let numbers = vec![1, 2, 4, 5, 6, 8];
    let result = find_number_ranges(numbers);
    assert_eq!(result, vec![vec![1, 2], vec![4, 5, 6], vec![8]]);
}

#[test]
fn main_test_empty_vector() {
    let input: Vec<Vec<u32>> = vec![vec![]];
    let expected = "";
    assert_eq!(condense_ranges(input), expected);
}

#[test]
fn test_single_element_vector() {
    let input = vec![vec![1]];
    let expected = "1";
    assert_eq!(condense_ranges(input), expected);
}

#[test]
fn test_multiple_element_vector() {
    let input = vec![vec![1, 2, 3, 4]];
    let expected = "1-4";
    assert_eq!(condense_ranges(input), expected);
}

#[test]
fn test_mixed_vectors() {
    let input = vec![vec![], vec![1], vec![3, 4, 5, 6], vec![8, 9]];
    let expected = "1,3-6,8,9";
    assert_eq!(condense_ranges(input), expected);
}

#[test]
fn test_multiple_vectors() {
    let input = vec![vec![1, 2, 3], vec![4, 5, 6, 7], vec![8, 9]];
    let expected = "1-3,4-7,8,9";
    assert_eq!(condense_ranges(input), expected);
}

#[test]
fn runs_put_back_together_give_the_input() {
    let numbers = vec![3, 4, 4, 5, 2, 9, 10, 11, 0];
    let result = find_number_ranges(numbers.clone());
    assert_eq!(
        result,
        vec![vec![3, 4], vec![4, 5], vec![2], vec![9, 10, 11], vec![0]]
    );
    let flat: Vec<u32> = result.into_iter().flatten().collect();
    assert_eq!(flat, numbers);
}

#[test]
fn zero_after_a_run_starts_a_new_run() {
    assert_eq!(find_number_ranges(vec![5, 0]), vec![vec![5], vec![0]]);
    assert_eq!(find_number_ranges(vec![0, 0, 1]), vec![vec![0], vec![0, 1]]);
}

#[test]
fn largest_values_do_not_overflow() {
    assert_eq!(
        find_number_ranges(vec![4294967294, 4294967295, 0]),
        vec![vec![4294967294, 4294967295], vec![0]]
    );
    assert_eq!(
        condense_ranges(vec![vec![4294967293, 4294967294, 4294967295]]),
        "4294967293-4294967295"
    );
}

#[test]
fn pair_is_listed_and_triple_is_a_range() {
    assert_eq!(condense_ranges(vec![vec![8, 9]]), "8,9");
    assert_eq!(condense_ranges(vec![vec![7, 8, 9]]), "7-9");
}

#[test]
fn no_runs_and_empty_runs_give_nothing() {
    assert_eq!(condense_ranges(vec![]), "");
    assert_eq!(condense_ranges(vec![vec![]]), "");
    assert_eq!(condense_ranges(vec![vec![], vec![]]), "");
}

#[test]
fn numbers_are_written_in_decimal() {
    assert_eq!(condense_ranges(vec![vec![0], vec![10], vec![305, 306]]), "0,10,305,306");
}
