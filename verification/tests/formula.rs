use joy::formula::{build_subject, leaves, parse, print};
use joy::program::parse_program;
use joy::noun::Noun;

#[test]
fn atom_roundtrips() {
    let id = parse("42").unwrap();
    assert_eq!(print(&id), "42");
}

#[test]
fn cell_roundtrips() {
    let text = "[5 [[1 3] [1 5]]]";
    let id = parse(text).unwrap();
    assert_eq!(print(&id), text);
}

#[test]
fn nary_cell_folds_right() {
    let id = parse("[4 [1 0] [1 1] [1 2]]").unwrap();
    assert_eq!(print(&id), "[4 [[1 0] [[1 1] [1 2]]]]");
}

#[test]
fn whitespace_is_insignificant() {
    let a = parse("[5 [[1 3] [1 5]]]").unwrap();
    let b = parse("  [ 5\n [ [1   3] [1 5] ] ]\n").unwrap();
    assert_eq!(a, b);
}

#[test]
fn unclosed_bracket_errors() {
    assert!(parse("[5 [1 3]").is_err());
}

#[test]
fn trailing_input_errors() {
    assert!(parse("[1 2] 7").is_err());
}

#[test]
fn singleton_cell_errors() {
    assert!(parse("[5]").is_err());
}

#[test]
fn subject_puts_last_input_at_head() {
    let s = build_subject(&[3, 5]);
    assert_eq!(print(&s), "[5 [3 0]]");
}

#[test]
fn empty_subject_is_zero() {
    let s = build_subject(&[]);
    assert_eq!(print(&s), "0");
}

#[test]
fn leaves_flatten_left_to_right() {
    let id = parse("[[1 2] [3 4]]").unwrap();
    assert_eq!(leaves(&id), vec![1, 2, 3, 4]);
}

#[test]
fn parse_error_messages_name_the_fault() {
    assert_eq!(parse("[5 [1 3]").unwrap_err(), "unclosed '[' in formula");
    assert_eq!(parse("[1 2] 7").unwrap_err(), "trailing input at byte 6 of formula");
    assert_eq!(parse("[5]").unwrap_err(), "cell needs at least 2 elements, got 1");
    assert_eq!(parse("").unwrap_err(), "unexpected end of formula");
    assert_eq!(parse("[1 x]").unwrap_err(), "unexpected character 'x' at byte 3");
}

#[test]
fn printed_nouns_parse_back() {
    let n = Noun::Pair(
        Box::new(Noun::Atom(7)),
        Box::new(Noun::Pair(Box::new(Noun::Atom(0)), Box::new(Noun::Atom(18446744069414584320)))),
    );
    let text = print(&n);
    assert_eq!(text, "[7 [0 18446744069414584320]]");
    assert_eq!(parse(&text).unwrap(), n);
}

#[test]
fn subject_leaves_are_inputs_reversed_then_zero() {
    let s = build_subject(&[1, 2, 3]);
    assert_eq!(leaves(&s), vec![3, 2, 1, 0]);
}

fn pair(h: Noun, t: Noun) -> Noun {
    Noun::Pair(Box::new(h), Box::new(t))
}

#[test]
fn program_parser_reads_printed_formulas() {
    let n = pair(Noun::Atom(2), pair(pair(Noun::Atom(0), Noun::Atom(1)), Noun::Atom(18446744069414584320)));
    assert_eq!(parse_program(&print(&n)).unwrap(), n);
    assert_eq!(parse_program("[1 2 3]").unwrap(), pair(Noun::Atom(1), pair(Noun::Atom(2), Noun::Atom(3))));
    assert_eq!(parse_program(" \n7\t").unwrap(), Noun::Atom(7));
    assert_eq!(parse_program("18446744069414584321").unwrap(), Noun::Atom(0));
}

#[test]
fn program_parser_refuses_malformed_text() {
    assert_eq!(parse_program("[]").unwrap_err(), "empty cell");
    assert_eq!(parse_program("[1]").unwrap_err(), "cell needs at least two elements");
    assert_eq!(parse_program("1]").unwrap_err(), "unexpected closing bracket");
    assert_eq!(parse_program("[1 2").unwrap_err(), "unclosed bracket");
    assert_eq!(parse_program("1 2").unwrap_err(), "program must contain exactly one noun");
    assert_eq!(parse_program("").unwrap_err(), "program must contain exactly one noun");
    assert_eq!(parse_program("[1 x]").unwrap_err(), "invalid formula character");
    assert_eq!(parse_program("18446744073709551616").unwrap_err(), "invalid atom");
    assert_eq!(parse_program(&"7 ".repeat(131_073)).unwrap_err(), "execution program is too large");
}

fn balanced(depth: u32) -> String {
    if depth == 0 {
        "1".to_string()
    } else {
        format!("[{} {}]", balanced(depth - 1), balanced(depth - 1))
    }
}

#[test]
fn program_parser_bounds_depth_and_nodes() {
    let deep = format!("{}0{}", "[0 ".repeat(128), "]".repeat(128));
    assert!(parse_program(&deep).is_ok());
    let deeper = format!("{}0{}", "[0 ".repeat(129), "]".repeat(129));
    assert_eq!(parse_program(&deeper).unwrap_err(), "formula depth limit");
    assert_eq!(parse_program(&format!("[{}]", "1 ".repeat(130))).unwrap_err(), "formula depth limit");
    assert!(parse_program(&balanced(11)).is_ok());
    assert_eq!(parse_program(&balanced(12)).unwrap_err(), "formula node limit");
}
