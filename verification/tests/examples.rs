use cyclic_brackets::scan::get_longest_correct_cyclic_substring;

#[test]
fn example_01() {
    assert_eq!(get_longest_correct_cyclic_substring("}](){").unwrap(), "(){}")
}

#[test]
fn example_02() {
    assert_eq!(get_longest_correct_cyclic_substring("sh(dh)}").unwrap(), "sh(dh)")
}

#[test]
fn example_03() {
    assert_eq!(get_longest_correct_cyclic_substring("]h({hdb}b)[").unwrap(), "Infinite")
}

#[test]
fn example_04() {
    assert_eq!(get_longest_correct_cyclic_substring("]h({hdb}b)[)").unwrap(), "h({hdb}b)")
}

#[test]
fn example_05() {
    assert_eq!(get_longest_correct_cyclic_substring("").unwrap(), "Infinite")
}

#[test]
fn example_06() {
    assert_eq!(get_longest_correct_cyclic_substring("aawfvwjnvdskHIUAWUndjea").unwrap(), "Infinite")
}

#[test]
fn example_07() {
    assert_eq!(get_longest_correct_cyclic_substring("dh()wed(())").unwrap(), "Infinite")
}

#[test]
fn example_08() {
    assert_eq!(get_longest_correct_cyclic_substring("dh()wed(())]").unwrap(), "dh()wed(())")
}

#[test]
fn example_09() {
    assert_eq!(get_longest_correct_cyclic_substring("[dh()wed(())[]").unwrap(), "dh()wed(())[]")
}

#[test]
fn example_10() {
    assert_eq!(get_longest_correct_cyclic_substring("[dh()wEd(([))[]").unwrap(), "dh()wEd")
}

#[test]
fn example_11() {
    assert_eq!(get_longest_correct_cyclic_substring("a").unwrap(), "Infinite")
}

#[test]
fn example_12() {
    assert_eq!(get_longest_correct_cyclic_substring("[dh()([))[]ewvrewwedwe").unwrap(), "[]ewvrewwedwe")
}

#[test]
fn example_13() {
    assert_eq!(get_longest_correct_cyclic_substring("][dh[))[]ewvrewwedwe[").unwrap(), "[]ewvrewwedwe[]")
}

#[test]
fn example_14() {
    assert_eq!(get_longest_correct_cyclic_substring("()(({}[](][{[()]}]{})))(").unwrap(), "[{[()]}]{}")
}

#[test]
fn example_15() {
    assert_eq!(get_longest_correct_cyclic_substring("()(({}[](][{[()]}]{})))(").unwrap(), "[{[()]}]{}")
}

#[test]
fn example_16() {
    assert_eq!(
        get_longest_correct_cyclic_substring("()(({}[]([{[()]}]{})))(").unwrap(),
        "()(({}[]([{[()]}]{})))"
    )
}

#[test]
fn example_17() {
    assert_eq!(get_longest_correct_cyclic_substring("{}[()()()()()()()]").unwrap(), "Infinite")
}

#[test]
fn example_18() {
    assert_eq!(get_longest_correct_cyclic_substring("a()[[[[a()()a()[[[[a").unwrap(), "a()()a()")
}

#[test]
fn example_19() {
    assert_eq!(get_longest_correct_cyclic_substring("a()[[[[a()()a()[[[[arrfff").unwrap(), "arrfffa()")
}

#[test]
fn example_20() {
    assert_eq!(get_longest_correct_cyclic_substring("acb)()jn)").unwrap(), "()jn")
}

#[test]
fn example_21() {
    assert_eq!(
        get_longest_correct_cyclic_substring("a()(({}[]([{[()]}]{})))(").unwrap(),
        "a()(({}[]([{[()]}]{})))"
    )
}

#[test]
fn example_22() {
    assert_eq!(
        get_longest_correct_cyclic_substring("()(({}[]([{[()]}]{})))(b").unwrap(),
        "b()(({}[]([{[()]}]{})))"
    )
}
