use mcts_tic_tac_toe::input::parse_input;

#[test]
fn test_parse_input_plain() {
    assert_eq!(parse_input(&String::from("1,2")), Ok((1, 2)));
}

#[test]
fn test_parse_input_with_spaces() {
    assert_eq!(parse_input(&String::from(" 0 , 2 \n")), Ok((0, 2)));
}

#[test]
fn test_parse_input_leading_plus() {
    assert_eq!(parse_input(&String::from("+1, +0")), Ok((1, 0)));
}

#[test]
fn test_parse_input_missing_comma() {
    assert_eq!(
        parse_input(&String::from("12")),
        Err("Number of comma separated non-negative numbers must be 2.")
    );
}

#[test]
fn test_parse_input_too_many_parts() {
    assert_eq!(
        parse_input(&String::from("1,2,3")),
        Err("Number of comma separated non-negative numbers must be 2.")
    );
}

#[test]
fn test_parse_input_not_a_number() {
    assert_eq!(
        parse_input(&String::from("a,2")),
        Err("Must enter valid non-negative numbers separated by a comma.")
    );
}

#[test]
fn test_parse_input_negative_rejected() {
    assert_eq!(
        parse_input(&String::from("-1,2")),
        Err("Must enter valid non-negative numbers separated by a comma.")
    );
}

#[test]
fn test_parse_input_empty_part() {
    assert_eq!(
        parse_input(&String::from("1,")),
        Err("Must enter valid non-negative numbers separated by a comma.")
    );
}

#[test]
fn test_parse_input_overflow() {
    assert_eq!(
        parse_input(&String::from("99999999999999999999999999,1")),
        Err("Must enter valid non-negative numbers separated by a comma.")
    );
}

#[test]
fn test_parse_input_max_value() {
    let text = format!("{},0", usize::MAX);
    assert_eq!(parse_input(&text), Ok((usize::MAX, 0)));
}
