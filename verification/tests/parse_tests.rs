use regex_fsm::parse::ParseError;
use regex_fsm::parse::Parser;
use regex_fsm::parse::Primitive;
use regex_fsm::parse::Regex;
use regex_fsm::parse::Regex::Char;
use regex_fsm::parse::Regex::Choice;
use regex_fsm::parse::Regex::Class;
use regex_fsm::parse::Regex::Range;
use regex_fsm::parse::Regex::Repetition;
use regex_fsm::parse::Regex::Sequence;

fn char_seq(char: char) -> Regex {
    Sequence(vec![Char(char)])
}

fn box_char_seq(char: char) -> Box<Regex> {
    Box::new(Sequence(vec![Char(char)]))
}

#[test]
fn simple_choice() {
    let regex = "a|b";
    let parsed = Parser::parse(regex).unwrap();
    assert_eq!(parsed, Choice(box_char_seq('a'), box_char_seq('b')))
}

#[test]
fn repetition() {
    let regex = "a*";
    let parsed = Parser::parse(regex).unwrap();
    assert_eq!(parsed, Sequence(vec![Repetition(Box::new(Char('a')))]))
}

#[test]
fn primitives() {
    let regex = "\\w\\d";
    let parsed = Parser::parse(regex).unwrap();
    assert_eq!(
        parsed,
        Sequence(vec![
            Regex::Primitive(Primitive::Word),
            Regex::Primitive(Primitive::Digit)
        ])
    )
}

#[test]
fn groups() {
    let regex = "(a)(bc)";
    let parsed = Parser::parse(regex).unwrap();
    assert_eq!(
        parsed,
        Sequence(vec![char_seq('a'), Sequence(vec![Char('b'), Char('c')])])
    )
}

#[test]
fn set() {
    let regex = "[ab]";
    let parsed = Parser::parse(regex).unwrap();
    assert_eq!(
        parsed,
        Sequence(vec![Class(vec![Regex::Char('a'), Regex::Char('b')])])
    )
}

#[test]
fn set_range() {
    let regex = "[a-zA-Z]";
    let parsed = Parser::parse(regex).unwrap();
    assert_eq!(
        parsed,
        Sequence(vec![Class(vec![Range('a', 'z'), Range('A', 'Z')])])
    )
}

#[test]
fn empty_pattern_is_empty_sequence() {
    let parsed = Parser::parse("").unwrap();
    assert_eq!(parsed, Sequence(vec![]));
}

#[test]
fn empty_group() {
    let parsed = Parser::parse("()").unwrap();
    assert_eq!(parsed, Sequence(vec![Sequence(vec![])]));
}

#[test]
fn double_star_nests_repetitions() {
    let parsed = Parser::parse("a**").unwrap();
    assert_eq!(
        parsed,
        Sequence(vec![Repetition(Box::new(Repetition(Box::new(Char('a')))))])
    );
}

#[test]
fn choice_is_right_leaning() {
    let parsed = Parser::parse("a|b|c").unwrap();
    assert_eq!(
        parsed,
        Choice(
            box_char_seq('a'),
            Box::new(Choice(box_char_seq('b'), box_char_seq('c')))
        )
    );
}

#[test]
fn unterminated_group() {
    assert_eq!(Parser::parse("(a"), Err(ParseError::UnterminatedGroup));
}

#[test]
fn stray_close_paren_is_rejected() {
    assert_eq!(Parser::parse("a)b"), Err(ParseError::UnterminatedGroup));
    assert_eq!(Parser::parse(")"), Err(ParseError::UnterminatedGroup));
}

#[test]
fn dangling_escape() {
    assert_eq!(Parser::parse("a\\"), Err(ParseError::DanglingEscape));
}

#[test]
fn unterminated_set() {
    assert_eq!(Parser::parse("[ab"), Err(ParseError::UnterminatedSet));
}

#[test]
fn unknown_escape_class() {
    assert_eq!(Parser::parse("\\x"), Err(ParseError::UnknownEscapeClass));
}

#[test]
fn escaped_star_is_rejected_too() {
    assert_eq!(Parser::parse("\\*"), Err(ParseError::UnknownEscapeClass));
}

#[test]
fn unexpected_end_in_range() {
    assert_eq!(Parser::parse("[a-"), Err(ParseError::UnexpectedEnd));
}
