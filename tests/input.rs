use graph_cycles::input::parse_input;

#[test]
fn reads_one_arc_per_line() {
    assert_eq!(parse_input("3 2\n1 2\n2 3\n"), vec![(3, 2), (1, 2), (2, 3)]);
    assert_eq!(parse_input("4 5\r\n1\t2"), vec![(4, 5), (1, 2)]);
}

#[test]
fn skips_lines_that_are_not_two_numbers() {
    let text = "1 2 3\n\nx 4\n5\n-1 2\n  6   7  \n";
    assert_eq!(parse_input(text), vec![(6, 7)]);
    assert_eq!(parse_input(""), Vec::<(usize, usize)>::new());
}

#[test]
fn numbers_may_carry_a_plus_sign_but_must_fit() {
    assert_eq!(parse_input("+5 7"), vec![(5, 7)]);
    assert_eq!(parse_input("+ 7\n++5 7"), Vec::<(usize, usize)>::new());
    let max = usize::MAX.to_string();
    assert_eq!(parse_input(&format!("{} 1", max)), vec![(usize::MAX, 1)]);
    assert_eq!(parse_input(&format!("{}0 1", max)), Vec::<(usize, usize)>::new());
}
