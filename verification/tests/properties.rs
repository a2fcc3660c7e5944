use cyclic_brackets::balance::{close_bracket, open_bracket, opening_of};
use cyclic_brackets::scan::{get_idx_and_max, get_longest_correct_cyclic_substring, ScanError};

#[test]
fn rerun_yields_same_result() {
    let inputs = ["}](){", "sh(dh)}", "]h({hdb}b)[", "", "dh()wed(())]", "[dh()wed(())[]"];
    for input in inputs {
        let first = get_longest_correct_cyclic_substring(input).unwrap();
        let second = get_longest_correct_cyclic_substring(input).unwrap();
        assert_eq!(first, second);
    }
}

#[test]
fn literal_result_is_shorter_than_input() {
    let inputs = ["}](){", "sh(dh)}", "]h({hdb}b)[)", "dh()wed(())]", "[dh()wed(())[]", "acb)()jn)"];
    for input in inputs {
        let result = get_longest_correct_cyclic_substring(input).unwrap();
        assert!(result.len() < input.len());
    }
}

#[test]
fn no_brackets_means_unbounded() {
    assert_eq!(get_longest_correct_cyclic_substring("z").unwrap(), "Infinite");
    assert_eq!(get_longest_correct_cyclic_substring("letters only").unwrap(), "Infinite");
    assert_eq!(get_longest_correct_cyclic_substring("x.y,z!").unwrap(), "Infinite");
}

#[test]
fn empty_input_is_unbounded() {
    assert_eq!(get_longest_correct_cyclic_substring("").unwrap(), "Infinite");
}

#[test]
fn whole_cycle_balanced_is_unbounded() {
    assert_eq!(get_longest_correct_cyclic_substring("()").unwrap(), "Infinite");
    assert_eq!(get_longest_correct_cyclic_substring("{[]}").unwrap(), "Infinite");
}

#[test]
fn tied_runs_keep_the_first_found() {
    // two balanced runs of the greatest length: the earlier one wins
    assert_eq!(get_longest_correct_cyclic_substring("()}[]}").unwrap(), "()");
}

#[test]
fn stray_closer_at_start_resets_window() {
    assert_eq!(get_longest_correct_cyclic_substring(")ab()").unwrap(), "ab()")
}

#[test]
fn multi_unit_character_is_rejected() {
    let result = get_longest_correct_cyclic_substring("(é)");
    match result {
        Err(ScanError::InvalidInput(input)) => assert_eq!(input, "(é)"),
        Ok(_) => panic!("a multi-unit character must be rejected"),
    }
}

#[test]
fn error_message_names_the_input() {
    let error = get_longest_correct_cyclic_substring("aé").unwrap_err();
    assert_eq!(error.message(), "Input string should contain 1-byte symbols only. Got: aé");
}

#[test]
fn single_unit_input_is_accepted() {
    assert!(get_longest_correct_cyclic_substring("(a)").is_ok());
}

#[test]
fn idx_and_max_of_empty_slice() {
    let values: Vec<usize> = vec![];
    assert_eq!(get_idx_and_max(&values), None);
}

#[test]
fn idx_and_max_takes_last_of_ties() {
    let values: Vec<usize> = vec![3, 7, 2, 7, 1];
    assert_eq!(get_idx_and_max(&values), Some((3, 7)));
}

#[test]
fn idx_and_max_of_single_value() {
    let values: Vec<usize> = vec![5];
    assert_eq!(get_idx_and_max(&values), Some((0, 5)));
}

#[test]
fn idx_and_max_general() {
    let values: Vec<usize> = vec![0, 4, 9, 4];
    assert_eq!(get_idx_and_max(&values), Some((2, 9)));
}

#[test]
fn bracket_classification() {
    for c in ['(', '[', '{'] {
        assert!(open_bracket(c));
        assert!(!close_bracket(c));
    }
    for c in [')', ']', '}'] {
        assert!(close_bracket(c));
        assert!(!open_bracket(c));
    }
    for c in ['a', 'Z', ' ', '<', '7'] {
        assert!(!open_bracket(c));
        assert!(!close_bracket(c));
    }
    assert_eq!(opening_of(')'), '(');
    assert_eq!(opening_of(']'), '[');
    assert_eq!(opening_of('}'), '{');
}
