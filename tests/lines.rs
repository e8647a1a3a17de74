use std::collections::HashSet;

use component_ranges::{extract_ids, process_line, LineError};

#[test]
fn success_cases() {
    let test_cases = vec![
        ("R1, R3, R4, R7", "R:1,3,4,7"),
        ("   R1,R3  ,  R4,R7   ", "R:1,3,4,7"),
        ("R1,R2,R3,R7,R8,R22,R23,R24,R25", "R:1-3,7,8,22-25"),
        ("IC1,IC3,IC4,IC7", "IC:1,3,4,7"),
    ];

    for (input, expected) in test_cases {
        assert_eq!(process_line(input), Ok(String::from(expected)));
    }
}

#[test]
fn error_cases_no_component_type() {
    let test_cases: Vec<(&str, Result<String, LineError>)> = vec![
        ("foobar", Err(LineError::NoComponentType)),
        ("7", Err(LineError::NoComponentType)),
    ];

    for (input, expected) in test_cases {
        assert_eq!(process_line(input), expected);
    }
}

#[test]
fn error_cases_mixed_component_types() {
    let test_cases: Vec<(&str, HashSet<String>)> = vec![(
        "R1, R2, D5",
        HashSet::from([String::from("D"), String::from("R")]),
    )];

    for (input, expected) in test_cases {
        match process_line(input) {
            Err(LineError::MixedComponentTypes(kinds)) => {
                assert_eq!(kinds.into_iter().collect::<HashSet<String>>(), expected);
            }
            other => panic!("unexpected result {:?}", other),
        }
    }
}

#[test]
fn mixed_kinds_are_listed_once_each() {
    assert_eq!(
        process_line("D1,R2,D3,IC4,R5"),
        Err(LineError::MixedComponentTypes(vec![
            String::from("D"),
            String::from("R"),
            String::from("IC"),
        ]))
    );
}

#[test]
fn empty_and_blank_lines_have_no_kind() {
    assert_eq!(process_line(""), Err(LineError::NoComponentType));
    assert_eq!(process_line("  ,  , "), Err(LineError::NoComponentType));
    assert_eq!(process_line("r1, 12, R, ,"), Err(LineError::NoComponentType));
}

#[test]
fn only_the_first_identifier_of_a_chunk_counts() {
    assert_eq!(process_line("R1 R2, R3"), Ok(String::from("R:1,3")));
    assert_eq!(process_line("xR7y D9"), Ok(String::from("R:7")));
}

#[test]
fn numbers_too_large_drop_their_chunk() {
    assert_eq!(process_line("R4294967296,R3"), Ok(String::from("R:3")));
    assert_eq!(process_line("R4294967295"), Ok(String::from("R:4294967295")));
    assert_eq!(process_line("D99999999999"), Err(LineError::NoComponentType));
}

#[test]
fn leading_zeros_and_order_are_kept() {
    assert_eq!(process_line("R003,R2,R1"), Ok(String::from("R:3,2,1")));
    assert_eq!(process_line("R5,R6,R7,R5"), Ok(String::from("R:5-7,5")));
}

#[test]
fn extraction_reads_prefix_and_number() {
    assert_eq!(
        extract_ids("AB12, c3 ,X7Y8,ZZ"),
        vec![(String::from("AB"), 12), (String::from("X"), 7)]
    );
    assert_eq!(extract_ids("éR5"), vec![(String::from("R"), 5)]);
}
