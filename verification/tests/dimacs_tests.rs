use sat_layout::dimacs::Dimacs;

#[test]
fn parse_test() {
    let dimacs = "
        c test comment \n\
        p 3 3          \n\
        1 -2 -3 0      \n\
        2 3 1 0        \n\
        1 0            \n\
        2 0            
        ";

    let result = Dimacs::parse(dimacs).unwrap();
    assert_eq!(result[0], vec![1, -2, -3]);
    assert_eq!(result[1], vec![2, 3, 1]);
    assert_eq!(result[2], vec![1]);
    assert_eq!(result[3], vec![2]);
}

#[test]
fn parse_empty_input() {
    let result = Dimacs::parse("").unwrap();
    assert_eq!(result.len(), 0);
}

#[test]
fn parse_only_comments_and_header() {
    let result = Dimacs::parse("c nothing here\np cnf 2 1\n").unwrap();
    assert_eq!(result.len(), 0);
}

#[test]
fn parse_drops_zero_terminators() {
    let result = Dimacs::parse("5 0\n0 0 0\n-7 0 6 0\n").unwrap();
    assert_eq!(result.len(), 3);
    assert_eq!(result[0], vec![5]);
    assert_eq!(result[1], Vec::<i32>::new());
    assert_eq!(result[2], vec![-7, 6]);
}

#[test]
fn parse_accepts_plus_sign_and_crlf() {
    let result = Dimacs::parse("+5 -6 0\r\n1 0\r\n").unwrap();
    assert_eq!(result[0], vec![5, -6]);
    assert_eq!(result[1], vec![1]);
}

#[test]
fn parse_rejects_word_token() {
    assert!(Dimacs::parse("1 abc 0\n").is_err());
}

#[test]
fn parse_rejects_bare_sign() {
    assert!(Dimacs::parse("- 0\n").is_err());
}

#[test]
fn parse_rejects_value_beyond_i32() {
    assert!(Dimacs::parse("2147483648 0\n").is_err());
    assert!(Dimacs::parse("99999999999999999999 0\n").is_err());
}

#[test]
fn parse_accepts_extreme_i32_values() {
    let result = Dimacs::parse("2147483647 -2147483648 0\n").unwrap();
    assert_eq!(result[0], vec![2147483647, -2147483648]);
}
