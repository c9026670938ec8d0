use regex_fsm::compile::compile;
use regex_fsm::compile::Node;
use regex_fsm::compile::RegexFsm;
use regex_fsm::compile::Transition;
use regex_fsm::compile::TransitionType;
use regex_fsm::parse::Parser;
use regex_fsm::parse::Regex;

fn node(end: bool, transitions: Vec<Transition>) -> Node {
    Node { end, transitions }
}

fn edge(target_node: usize, condition: TransitionType) -> Transition {
    Transition {
        target_node,
        condition,
    }
}

///
/// regex: /🌈/
/// fsm:  () --🌈-- (())
#[test]
fn single_char() {
    let ast = Regex::Char('🌈');
    let fsm = compile(&ast);
    assert_eq!(
        fsm,
        RegexFsm {
            nodes: vec![
                Node {
                    end: false,
                    transitions: vec![Transition {
                        target_node: 1,
                        condition: TransitionType::Char('🌈')
                    }]
                },
                Node {
                    end: true,
                    transitions: vec![]
                }
            ]
        }
    )
}

/// A one-character pattern: two nodes, one consuming transition.
#[test]
fn single_char_pattern() {
    let ast = Parser::parse("a").unwrap();
    let fsm = compile(&ast);
    assert_eq!(
        fsm,
        RegexFsm {
            nodes: vec![
                node(false, vec![edge(1, TransitionType::Char('a'))]),
                node(true, vec![]),
            ]
        }
    );
}

/// Concatenation threads into a chain: 0 --a--> 1 --b--> 2 (accept).
#[test]
fn concatenation_chain() {
    let ast = Parser::parse("ab").unwrap();
    let fsm = compile(&ast);
    assert_eq!(
        fsm,
        RegexFsm {
            nodes: vec![
                node(false, vec![edge(1, TransitionType::Char('a'))]),
                node(false, vec![edge(2, TransitionType::Char('b'))]),
                node(true, vec![]),
            ]
        }
    );
}

/// A whole-pattern alternation branches from the start node into two
/// independent accept nodes.
#[test]
fn alternation_branches() {
    let ast = Parser::parse("a|b").unwrap();
    let fsm = compile(&ast);
    assert_eq!(
        fsm,
        RegexFsm {
            nodes: vec![
                node(
                    false,
                    vec![
                        edge(1, TransitionType::Char('a')),
                        edge(2, TransitionType::Char('b')),
                    ]
                ),
                node(true, vec![]),
                node(true, vec![]),
            ]
        }
    );
}

/// Both exits of an alternation are wired to the same continuation
/// node when the pattern goes on.
#[test]
fn alternation_joins_on_continuation() {
    let ast = Parser::parse("(a|b)c").unwrap();
    let fsm = compile(&ast);
    assert_eq!(
        fsm,
        RegexFsm {
            nodes: vec![
                node(
                    false,
                    vec![
                        edge(1, TransitionType::Char('a')),
                        edge(2, TransitionType::Char('b')),
                    ]
                ),
                node(false, vec![edge(3, TransitionType::Char('c'))]),
                node(false, vec![edge(3, TransitionType::Char('c'))]),
                node(true, vec![]),
            ]
        }
    );
}

/// The repetition loop: the loop node (1) has one epsilon into the
/// compiled body, whose exit returns to it by epsilon, and one epsilon
/// straight to the accept node — the zero-occurrence path, so the
/// empty string is accepted.
#[test]
fn repetition_loops_back() {
    let ast = Parser::parse("a*").unwrap();
    let fsm = compile(&ast);
    assert_eq!(
        fsm,
        RegexFsm {
            nodes: vec![
                node(false, vec![edge(1, TransitionType::Epsilon)]),
                node(
                    false,
                    vec![
                        edge(2, TransitionType::Epsilon),
                        edge(4, TransitionType::Epsilon),
                    ]
                ),
                node(false, vec![edge(3, TransitionType::Char('a'))]),
                node(false, vec![edge(1, TransitionType::Epsilon)]),
                node(true, vec![]),
            ]
        }
    );
}

/// A range class compiles to one inclusive range transition.
#[test]
fn class_range() {
    let ast = Parser::parse("[a-c]").unwrap();
    let fsm = compile(&ast);
    assert_eq!(
        fsm,
        RegexFsm {
            nodes: vec![
                node(false, vec![edge(1, TransitionType::Range('a', 'c'))]),
                node(true, vec![]),
            ]
        }
    );
}

/// A listed class compiles to one transition per element, all into
/// the same accept node.
#[test]
fn class_chars() {
    let ast = Parser::parse("[ab]").unwrap();
    let fsm = compile(&ast);
    assert_eq!(
        fsm,
        RegexFsm {
            nodes: vec![
                node(
                    false,
                    vec![
                        edge(1, TransitionType::Char('a')),
                        edge(1, TransitionType::Char('b')),
                    ]
                ),
                node(true, vec![]),
            ]
        }
    );
}

/// The empty pattern compiles to a single epsilon into an accept node.
#[test]
fn empty_pattern_machine() {
    let ast = Parser::parse("").unwrap();
    let fsm = compile(&ast);
    assert_eq!(
        fsm,
        RegexFsm {
            nodes: vec![
                node(false, vec![edge(1, TransitionType::Epsilon)]),
                node(true, vec![]),
            ]
        }
    );
}

/// The empty class matches nothing: its node gets no transition at
/// all, so the accept node is unreachable.
#[test]
fn empty_class_machine() {
    let ast = Parser::parse("[]").unwrap();
    let fsm = compile(&ast);
    assert_eq!(
        fsm,
        RegexFsm {
            nodes: vec![node(false, vec![]), node(true, vec![])]
        }
    );
}

/// Compiling the same tree twice gives structurally identical
/// machines.
#[test]
fn compile_is_deterministic() {
    let ast = Parser::parse("a|b*c").unwrap();
    let first = compile(&ast);
    let second = compile(&ast);
    assert_eq!(first, second);
}

/// A primitive class becomes a primitive transition.
#[test]
fn primitive_transition() {
    let ast = Parser::parse("\\d").unwrap();
    let fsm = compile(&ast);
    assert_eq!(
        fsm,
        RegexFsm {
            nodes: vec![
                node(
                    false,
                    vec![edge(
                        1,
                        TransitionType::Primitive(regex_fsm::parse::Primitive::Digit)
                    )]
                ),
                node(true, vec![]),
            ]
        }
    );
}

/// No transition of a compiled machine targets a node outside the
/// arena, whatever the pattern.
#[test]
fn targets_stay_in_bounds() {
    let patterns = ["", "a", "ab", "a|b", "a*", "[a-c]", "(ab|cd)*e", "a**", "[ab]*|\\w"];
    for pattern in patterns {
        let fsm = compile(&Parser::parse(pattern).unwrap());
        assert!(!fsm.nodes.is_empty());
        assert!(fsm.nodes.iter().any(|n| n.end));
        for n in &fsm.nodes {
            for t in &n.transitions {
                assert!(t.target_node < fsm.nodes.len());
            }
        }
    }
}
