//! Recursive-descent parser for regular-expression patterns.
//!
//! The grammar, one function per nonterminal:
//!
//! ```txt
//! <regex>    ::= <term> '|' <regex>
//!              | <term>
//!
//! <term>     ::= { <factor> }
//!
//! <factor>   ::= <base> { '*' }
//!
//! <base>     ::= <char>
//!              | '\' <char>
//!              | '(' <regex> ')'
//!              | '[' { <set-elem> } ']'
//!
//! <set-elem> ::= <char>
//!              | <char> '-' <char>
//! ```
//!
//! Alternation binds loosest, concatenation tighter, and postfix
//! repetition tightest. Parentheses only control scope: a group parses
//! to the tree of its contents and adds no node of its own.
//!
//! Escape policy: `\w` and `\d` name the two primitive classes; any
//! other escaped character is rejected with
//! [`ParseError::UnknownEscapeClass`]. A range written `a-z` inside a
//! set is inclusive on both ends.
//!
//! Every malformed pattern is reported as a [`ParseError`] value; the
//! parser never panics.

use vstd::prelude::*;
use vstd::string::StrSliceExecFns;

verus! {

/// The abstract syntax tree of a regular expression.
#[derive(Debug, PartialEq, Eq)]
pub enum Regex {
    /// Alternation between two sub-patterns; `a|b|c` parses to a
    /// right-leaning chain of binary choices.
    Choice(Box<Regex>, Box<Regex>),
    /// Ordered concatenation; the empty sequence matches the empty string.
    Sequence(Vec<Regex>),
    /// Zero or more repetitions of the inner pattern (Kleene star).
    Repetition(Box<Regex>),
    /// A character class: one codepoint equal to any listed `Char` or
    /// inside any listed `Range`. An empty class matches nothing.
    Class(Vec<Regex>),
    /// One codepoint `c` with `low <= c` and `c <= high`, inclusive on
    /// both ends; produced only inside `Class` by the parser.
    Range(char, char),
    /// One codepoint of a named class.
    Primitive(Primitive),
    /// Exactly one literal codepoint.
    Char(char),
}

/// The named character classes reachable through an escape.
#[derive(Debug, Clone, Copy, PartialEq, Eq)]
pub enum Primitive {
    /// `\w`
    Word,
    /// `\d`
    Digit,
}

/// Why a pattern was rejected. Parsing either returns a tree or one of
/// these; it never panics on malformed input.
#[derive(Debug, Clone, Copy, PartialEq, Eq)]
pub enum ParseError {
    /// The input ended where one more character was structurally
    /// required (after the `-` of a range).
    UnexpectedEnd,
    /// A `(` with no matching `)`.
    UnterminatedGroup,
    /// A `[` with no matching `]`.
    UnterminatedSet,
    /// A `\` with no following character.
    DanglingEscape,
    /// A `\` followed by a character that names no primitive class.
    UnknownEscapeClass,
}

/// A character that only ever stands for itself in a pattern: it
/// opens or closes nothing, and neither escapes, repeats nor
/// alternates.
pub open spec fn is_ordinary(c: char) -> bool {
    c != '(' && c != ')' && c != '[' && c != '\\' && c != '|' && c != '*'
}

/// A pattern text of ordinary characters alone: a literal string.
/// The `]` and `-` characters are ordinary outside a class.
pub open spec fn all_ordinary(s: Seq<char>) -> bool {
    forall|i: int| 0 <= i < s.len() ==> is_ordinary(#[trigger] s[i])
}

/// The items of a sequence tree; empty for any other tree.
pub open spec fn sequence_items(re: Regex) -> Seq<Regex> {
    match re {
        Regex::Sequence(items) => items@,
        _ => Seq::empty(),
    }
}

/// `r` is the literal parse of `s` from position `from` on: a
/// sequence with exactly one `Char` per remaining character.
pub open spec fn parses_to_literal(r: Result<Regex, ParseError>, s: Seq<char>, from: int) -> bool {
    &&& r matches Ok(tree)
    &&& tree is Sequence
    &&& sequence_items(tree).len() == s.len() - from
    &&& forall|j: int|
        0 <= j < s.len() - from ==> sequence_items(tree)[j] == Regex::Char(s[from + j])
}

/// Where a term ends without consuming: the end of the text, a `)` or
/// a `|`, which all belong to an enclosing construct.
pub open spec fn term_stops(s: Seq<char>, i: int) -> bool {
    i >= s.len() || s[i] == ')' || s[i] == '|'
}

/// The result of an outcome-producing call, seen as the position it
/// ends at: `Ok` carries the cursor after the call, an error passes
/// through. Every parser method's contract equates its spec mirror
/// with this view of its result.
pub open spec fn outcome_at(r: Result<Regex, ParseError>, j: int) -> Result<int, ParseError> {
    match r {
        Ok(_) => Ok(j),
        Err(e) => Err(e),
    }
}

/// Where a run of consecutive `*` characters starting at `j` ends.
pub open spec fn spec_stars(s: Seq<char>, j: int) -> int
    decreases s.len() - j,
{
    if 0 <= j < s.len() && s[j] == '*' {
        spec_stars(s, j + 1)
    } else {
        j
    }
}

/// The spec mirror of `set_elem`: where one class element parsed at
/// `i` ends, or exactly which error it raises.
pub open spec fn spec_set_elem(s: Seq<char>, i: int) -> Result<int, ParseError> {
    if i >= s.len() {
        Err(ParseError::UnterminatedSet)
    } else if i + 1 < s.len() && s[i + 1] == '-' {
        if i + 2 < s.len() {
            Ok(i + 3)
        } else {
            Err(ParseError::UnexpectedEnd)
        }
    } else {
        Ok(i + 1)
    }
}

/// The spec mirror of the class-element scan: from `i` (just past the
/// `[`) to just past the `]`, or exactly which error it raises.
pub open spec fn spec_class(s: Seq<char>, i: int) -> Result<int, ParseError>
    decreases s.len() - i,
{
    if i >= s.len() {
        Err(ParseError::UnterminatedSet)
    } else if s[i] == ']' {
        Ok(i + 1)
    } else {
        match spec_set_elem(s, i) {
            Err(e) => Err(e),
            Ok(m) => if i < m <= s.len() {
                spec_class(s, m)
            } else {
                Err(ParseError::UnterminatedSet)
            },
        }
    }
}

/// The spec mirror of `base`: where a base parsed at `i` ends, or
/// exactly which error it raises.
pub open spec fn spec_base(s: Seq<char>, i: int) -> Result<int, ParseError>
    decreases s.len() - i, 1nat,
{
    if i >= s.len() {
        Err(ParseError::UnexpectedEnd)
    } else if s[i] == '(' {
        match spec_regex(s, i + 1) {
            Err(e) => Err(e),
            Ok(m) => if 0 <= m < s.len() && s[m] == ')' {
                Ok(m + 1)
            } else {
                Err(ParseError::UnterminatedGroup)
            },
        }
    } else if s[i] == '\\' {
        if i + 1 >= s.len() {
            Err(ParseError::DanglingEscape)
        } else if s[i + 1] == 'w' || s[i + 1] == 'd' {
            Ok(i + 2)
        } else {
            Err(ParseError::UnknownEscapeClass)
        }
    } else if s[i] == '[' {
        spec_class(s, i + 1)
    } else {
        Ok(i + 1)
    }
}

/// The spec mirror of `factor`: a base and every `*` after it.
pub open spec fn spec_factor(s: Seq<char>, i: int) -> Result<int, ParseError>
    decreases s.len() - i, 2nat,
{
    match spec_base(s, i) {
        Err(e) => Err(e),
        Ok(j) => Ok(spec_stars(s, j)),
    }
}

/// The spec mirror of `term`: factors until a terminator, or exactly
/// which error the first failing factor raises.
pub open spec fn spec_term(s: Seq<char>, i: int) -> Result<int, ParseError>
    decreases s.len() - i, 3nat,
{
    if term_stops(s, i) {
        Ok(i)
    } else {
        match spec_factor(s, i) {
            Err(e) => Err(e),
            Ok(m) => if i < m <= s.len() {
                spec_term(s, m)
            } else {
                Err(ParseError::UnexpectedEnd)
            },
        }
    }
}

/// The spec mirror of `regex`: a term, then optionally `|` and the
/// rest; says for every input exactly where the parse ends or which
/// error it raises.
pub open spec fn spec_regex(s: Seq<char>, i: int) -> Result<int, ParseError>
    decreases s.len() - i, 4nat,
{
    match spec_term(s, i) {
        Err(e) => Err(e),
        Ok(m) => if 0 <= m < s.len() && s[m] == '|' {
            if i <= m {
                spec_regex(s, m + 1)
            } else {
                Err(ParseError::UnexpectedEnd)
            }
        } else {
            Ok(m)
        },
    }
}

/// The non-repetition core a factor's tree wraps.
pub open spec fn rep_core(t: Regex) -> Regex
    decreases t,
{
    match t {
        Regex::Repetition(inner) => rep_core(*inner),
        _ => t,
    }
}

/// How many `Repetition` wrappings a factor's tree carries.
pub open spec fn rep_depth(t: Regex) -> nat
    decreases t,
{
    match t {
        Regex::Repetition(inner) => 1 + rep_depth(*inner),
        _ => 0,
    }
}

/// Where one class element's tree ends when parsed at `i`; `-1` when
/// `elem` is not the element the text yields there.
pub open spec fn set_elem_tree_end(s: Seq<char>, i: int, elem: Regex) -> int {
    if i >= s.len() {
        -1
    } else if i + 1 < s.len() && s[i + 1] == '-' {
        if i + 2 < s.len() && elem == Regex::Range(s[i], s[i + 2]) {
            i + 3
        } else {
            -1
        }
    } else {
        if elem == Regex::Char(s[i]) {
            i + 1
        } else {
            -1
        }
    }
}

/// Where a run of class elements ends when parsed at `i` (before the
/// closing `]`); `-1` when `elems` is not what the text yields.
pub open spec fn class_chain_end(s: Seq<char>, i: int, elems: Seq<Regex>) -> int
    decreases elems.len(),
{
    if elems.len() == 0 {
        i
    } else {
        let c = class_chain_end(s, i, elems.drop_last());
        if !(i <= c) {
            -1
        } else if 0 <= c < s.len() && s[c] != ']' {
            let m = set_elem_tree_end(s, c, elems.last());
            if c < m <= s.len() {
                m
            } else {
                -1
            }
        } else {
            -1
        }
    }
}

/// Where a whole class's tree ends, the `]` consumed; `-1` on mismatch.
pub open spec fn class_tree_end(s: Seq<char>, i: int, elems: Seq<Regex>) -> int {
    let c = class_chain_end(s, i, elems);
    if 0 <= c < s.len() && s[c] == ']' {
        c + 1
    } else {
        -1
    }
}

/// Where a base's tree ends when parsed at `i`; `-1` when `t` is not
/// the tree the text yields: a literal character, an escape's
/// primitive class, a class, or — for a group — the group's own tree,
/// which adds no node of its own.
pub open spec fn base_tree_end(s: Seq<char>, i: int, t: Regex) -> int
    decreases s.len() - i, 1nat, 0nat,
{
    if i >= s.len() {
        -1
    } else if s[i] == '(' {
        if t is Sequence || t is Choice {
            let m = regex_tree_end(s, i + 1, t);
            if 0 <= m < s.len() && s[m] == ')' {
                m + 1
            } else {
                -1
            }
        } else {
            -1
        }
    } else if s[i] == '\\' {
        if i + 1 < s.len() && s[i + 1] == 'w' && t == Regex::Primitive(Primitive::Word) {
            i + 2
        } else if i + 1 < s.len() && s[i + 1] == 'd' && t == Regex::Primitive(Primitive::Digit) {
            i + 2
        } else {
            -1
        }
    } else if s[i] == '[' {
        match t {
            Regex::Class(elems) => class_tree_end(s, i + 1, elems@),
            _ => -1,
        }
    } else {
        if t == Regex::Char(s[i]) {
            i + 1
        } else {
            -1
        }
    }
}

/// Where a factor's tree ends: its core base, then exactly one `*`
/// per `Repetition` wrapping.
pub open spec fn factor_tree_end(s: Seq<char>, i: int, t: Regex) -> int
    decreases s.len() - i, 2nat, 0nat,
{
    let j = base_tree_end(s, i, rep_core(t));
    if j >= 0 && spec_stars(s, j) - j == rep_depth(t) {
        spec_stars(s, j)
    } else {
        -1
    }
}

/// Where a term's factor chain ends, factor by factor; `-1` when
/// `items` is not the chain the text yields.
pub open spec fn chain_tree_end(s: Seq<char>, i: int, items: Seq<Regex>) -> int
    decreases s.len() - i, 3nat, items.len(),
{
    if items.len() == 0 {
        i
    } else {
        let c = chain_tree_end(s, i, items.drop_last());
        if !(i <= c) {
            -1
        } else if !term_stops(s, c) {
            let m = factor_tree_end(s, c, items.last());
            if c < m <= s.len() {
                m
            } else {
                -1
            }
        } else {
            -1
        }
    }
}

/// Where a whole alternation level's tree ends; `-1` when `t` is not
/// the tree the text at `i` yields. A `Choice` stands exactly where a
/// `|` follows the term — alternation is right-associative — and a
/// `Sequence` stands where the term's terminator is anything else.
pub open spec fn regex_tree_end(s: Seq<char>, i: int, t: Regex) -> int
    decreases s.len() - i, 4nat, 0nat,
{
    match t {
        Regex::Choice(left, right) => match *left {
            Regex::Sequence(items) => {
                let m = chain_tree_end(s, i, items@);
                if i <= m && m < s.len() && s[m] == '|' {
                    regex_tree_end(s, m + 1, *right)
                } else {
                    -1
                }
            },
            _ => -1,
        },
        Regex::Sequence(items) => {
            let j = chain_tree_end(s, i, items@);
            if j >= 0 && term_stops(s, j) && !(j < s.len() && s[j] == '|') {
                j
            } else {
                -1
            }
        },
        _ => -1,
    }
}

proof fn lemma_base_tree_char(s: Seq<char>, i: int, j: int, c: char)
    requires
        0 <= i < s.len(),
        s[i] == c,
        c != '(',
        c != '\\',
        c != '[',
        j == i + 1,
    ensures
        base_tree_end(s, i, Regex::Char(c)) == j,
{
}

/// One class element parsed at `i` gives `r`, ending at `j`: a lone
/// character, an inclusive range when a `-` and a further character
/// follow, and the exact error kind otherwise. On an `Err` the end
/// position `j` is not constrained.
pub open spec fn set_elem_rel(s: Seq<char>, i: int, r: Result<Regex, ParseError>, j: int) -> bool {
    if i >= s.len() {
        r == Err::<Regex, ParseError>(ParseError::UnterminatedSet)
    } else if i + 1 < s.len() && s[i + 1] == '-' {
        if i + 2 < s.len() {
            r == Ok::<Regex, ParseError>(Regex::Range(s[i], s[i + 2])) && j == i + 3
        } else {
            r == Err::<Regex, ParseError>(ParseError::UnexpectedEnd)
        }
    } else {
        r == Ok::<Regex, ParseError>(Regex::Char(s[i])) && j == i + 1
    }
}

/// Single-codepoint lookahead over the pattern text: a cursor that
/// only moves forward, with `peek` and `next` as its whole interface.
pub struct Parser {
    chars: Vec<char>,
    pos: usize,
}

type RegexResult = Result<Regex, ParseError>;

impl Parser {
    /// The cursor never points past the end of the text.
    pub closed spec fn wf(&self) -> bool {
        self.pos <= self.chars@.len()
    }

    /// The pattern text this parser was built over.
    pub closed spec fn text(&self) -> Seq<char> {
        self.chars@
    }

    /// How much of the text has been consumed.
    pub closed spec fn at(&self) -> int {
        self.pos as int
    }

    /// Parses a whole pattern: the whole input must be consumed, so a
    /// closing parenthesis that matches no group — the one character
    /// the grammar gives no meaning at the top level — is reported as
    /// [`ParseError::UnterminatedGroup`], the taxonomy's delimiter
    /// mismatch.
    ///
    /// [`spec_regex`] fixes the result for every input: on `Ok` the
    /// parse ends exactly at the end of the text, and on `Err` the
    /// error is the one the grammar's first failure names.
    pub fn parse(regex: &str) -> (r: Result<Regex, ParseError>)
        ensures
            all_ordinary(regex@) ==> parses_to_literal(r, regex@, 0),
            ({
                let o = spec_regex(regex@, 0);
                match r {
                    Ok(_) => o == Ok::<int, ParseError>(regex@.len() as int),
                    Err(e) => o == Err::<int, ParseError>(e) || (e
                        == ParseError::UnterminatedGroup && (o matches Ok(j) && j
                        < regex@.len())),
                }
            }),
            r matches Ok(t) ==> regex_tree_end(regex@, 0, t) == regex@.len(),
    {
        let n = regex.unicode_len();
        let mut chars: Vec<char> = Vec::new();
        let mut i: usize = 0;
        while i < n
            invariant
                n == regex@.len(),
                i <= n,
                chars@.len() == i,
                forall|j: int| 0 <= j < i ==> chars@[j] == regex@[j],
            decreases n - i,
        {
            let c = regex.get_char(i);
            chars.push(c);
            i = i + 1;
        }
        proof {
            assert(chars@ =~= regex@);
        }
        let mut parser = Self { chars, pos: 0 };
        let result = parser.regex();
        match result {
            Ok(tree) => {
                if parser.pos < parser.chars.len() {
                    Err(ParseError::UnterminatedGroup)
                } else {
                    Ok(tree)
                }
            }
            Err(e) => Err(e),
        }
    }

    #[must_use]
    fn next(&mut self) -> (r: Option<char>)
        requires
            old(self).wf(),
        ensures
            final(self).wf(),
            final(self).text() == old(self).text(),
            old(self).at() < old(self).text().len() ==> {
                &&& final(self).at() == old(self).at() + 1
                &&& r == Some(old(self).text()[old(self).at()])
            },
            old(self).at() >= old(self).text().len() ==> {
                &&& final(self).at() == old(self).at()
                &&& r is None
            },
    {
        if self.pos < self.chars.len() {
            let c = self.chars[self.pos];
            self.pos = self.pos + 1;
            Some(c)
        } else {
            None
        }
    }

    /// Consumes the next character when it is `c`; reports whether it was.
    fn expect(&mut self, c: char) -> (r: bool)
        requires
            old(self).wf(),
        ensures
            final(self).wf(),
            final(self).text() == old(self).text(),
            r == (old(self).at() < old(self).text().len()
                && old(self).text()[old(self).at()] == c),
            r ==> final(self).at() == old(self).at() + 1,
            !r ==> final(self).at() == old(self).at(),
    {
        match self.peek() {
            Some(d) => {
                if d == c {
                    let _ = self.next();
                    true
                } else {
                    false
                }
            }
            None => false,
        }
    }

    fn peek(&self) -> (r: Option<char>)
        requires
            self.wf(),
        ensures
            r == (if self.at() < self.text().len() {
                Some(self.text()[self.at()])
            } else {
                None::<char>
            }),
    {
        if self.pos < self.chars.len() {
            Some(self.chars[self.pos])
        } else {
            None
        }
    }

    // regex term types

    fn regex(&mut self) -> (r: RegexResult)
        requires
            old(self).wf(),
        ensures
            final(self).wf(),
            final(self).text() == old(self).text(),
            final(self).at() >= old(self).at(),
            all_ordinary(old(self).text()) ==> parses_to_literal(
                r,
                old(self).text(),
                old(self).at(),
            ) && final(self).at() == old(self).text().len(),
            r matches Ok(t) ==> t is Sequence || t is Choice,
            r is Ok ==> final(self).at() == old(self).text().len() || old(self).text()[final(self).at()] == ')',
            spec_regex(old(self).text(), old(self).at()) == outcome_at(r, final(self).at()),
            r matches Ok(t) ==> regex_tree_end(old(self).text(), old(self).at(), t) == final(self).at(),
        decreases old(self).text().len() - old(self).at(), 3nat,
    {
        let term = match self.term() {
            Ok(t) => t,
            Err(e) => { return Err(e); }
        };
        let ghost term_snap = term;
        let ghost m = self.at();
        match self.peek() {
            Some('|') => {
                let _ = self.next();
                let rhs = match self.regex() {
                    Ok(t) => t,
                    Err(e) => { return Err(e); }
                };
                let ghost rhs_snap = rhs;
                let result = Regex::Choice(Box::new(term), Box::new(rhs));
                proof {
                    assert(regex_tree_end(old(self).text(), old(self).at(), result)
                        == final(self).at());
                }
                Ok(result)
            }
            _ => Ok(term),
        }
    }

    /// A term is a sequence of factors; it stops, without consuming, at
    /// the end of the text, at `)` and at `|`, which all belong to an
    /// enclosing construct.
    fn term(&mut self) -> (r: RegexResult)
        requires
            old(self).wf(),
        ensures
            final(self).wf(),
            final(self).text() == old(self).text(),
            final(self).at() >= old(self).at(),
            all_ordinary(old(self).text()) ==> parses_to_literal(
                r,
                old(self).text(),
                old(self).at(),
            ) && final(self).at() == old(self).text().len(),
            r matches Ok(t) ==> t is Sequence,
            r is Ok ==> term_stops(old(self).text(), final(self).at()),
            spec_term(old(self).text(), old(self).at()) == outcome_at(r, final(self).at()),
            r matches Ok(t) ==> chain_tree_end(
                old(self).text(),
                old(self).at(),
                sequence_items(t),
            ) == final(self).at(),
        decreases old(self).text().len() - old(self).at(), 2nat,
    {
        let mut sequence: Vec<Regex> = Vec::new();

        loop
            invariant
                self.wf(),
                self.text() == old(self).text(),
                self.at() >= old(self).at(),
                all_ordinary(self.text()) ==> {
                    &&& sequence@.len() == self.at() - old(self).at()
                    &&& forall|j: int|
                        0 <= j < sequence@.len() ==> sequence@[j] == Regex::Char(
                            self.text()[old(self).at() + j],
                        )
                },
                spec_term(old(self).text(), old(self).at()) == spec_term(
                    old(self).text(),
                    self.at(),
                ),
                chain_tree_end(old(self).text(), old(self).at(), sequence@) == self.at(),
            ensures
                self.wf(),
                self.text() == old(self).text(),
                self.at() >= old(self).at(),
                all_ordinary(self.text()) ==> {
                    &&& self.at() == self.text().len()
                    &&& sequence@.len() == self.at() - old(self).at()
                    &&& forall|j: int|
                        0 <= j < sequence@.len() ==> sequence@[j] == Regex::Char(
                            self.text()[old(self).at() + j],
                        )
                },
                term_stops(self.text(), self.at()),
                spec_term(old(self).text(), old(self).at()) == spec_term(
                    old(self).text(),
                    self.at(),
                ),
                chain_tree_end(old(self).text(), old(self).at(), sequence@) == self.at(),
            decreases self.text().len() - self.at(),
        {
            match self.peek() {
                None | Some(')') | Some('|') => { break; }
                _ => {}
            }
            let ghost pre_items = sequence@;
            let next_factor = match self.factor() {
                Ok(f) => f,
                Err(e) => { return Err(e); }
            };
            let ghost factor_snap = next_factor;
            sequence.push(next_factor);
            proof {
                assert(sequence@.drop_last() =~= pre_items);
                assert(sequence@.last() == factor_snap);
            }
        }

        Ok(Regex::Sequence(sequence))
    }

    fn factor(&mut self) -> (r: RegexResult)
        requires
            old(self).wf(),
        ensures
            final(self).wf(),
            final(self).text() == old(self).text(),
            final(self).at() >= old(self).at(),
            r is Ok ==> final(self).at() > old(self).at(),
            old(self).at() < old(self).text().len() && all_ordinary(old(self).text()) ==> r
                == Ok::<Regex, ParseError>(Regex::Char(old(self).text()[old(self).at()]))
                && final(self).at() == old(self).at() + 1,
            spec_factor(old(self).text(), old(self).at()) == outcome_at(r, final(self).at()),
            r matches Ok(t) ==> factor_tree_end(old(self).text(), old(self).at(), t) == final(self).at(),
        decreases old(self).text().len() - old(self).at(), 1nat,
    {
        let mut base = match self.base() {
            Ok(b) => b,
            Err(e) => { return Err(e); }
        };
        let ghost after_base = self.at();
        let ghost base0 = base;

        loop
            invariant
                self.wf(),
                self.text() == old(self).text(),
                self.at() > old(self).at(),
                old(self).at() < old(self).text().len() && all_ordinary(old(self).text()) ==> base
                    == Regex::Char(old(self).text()[old(self).at()]) && self.at() == old(self).at()
                    + 1,
                spec_stars(old(self).text(), after_base) == spec_stars(
                    old(self).text(),
                    self.at(),
                ),
                rep_core(base) == base0,
                after_base + rep_depth(base) == self.at(),
            ensures
                self.wf(),
                self.text() == old(self).text(),
                self.at() > old(self).at(),
                old(self).at() < old(self).text().len() && all_ordinary(old(self).text()) ==> base
                    == Regex::Char(old(self).text()[old(self).at()]) && self.at() == old(self).at()
                    + 1,
                spec_stars(old(self).text(), after_base) == spec_stars(
                    old(self).text(),
                    self.at(),
                ),
                rep_core(base) == base0,
                after_base + rep_depth(base) == self.at(),
                !(self.at() < self.text().len() && self.text()[self.at()] == '*'),
            decreases self.text().len() - self.at(),
        {
            match self.peek() {
                Some('*') => {
                    let _ = self.next();
                    base = Regex::Repetition(Box::new(base));
                }
                _ => { break; }
            }
        }

        Ok(base)
    }

    fn base(&mut self) -> (r: RegexResult)
        requires
            old(self).wf(),
        ensures
            final(self).wf(),
            final(self).text() == old(self).text(),
            final(self).at() >= old(self).at(),
            r is Ok ==> final(self).at() > old(self).at(),
            old(self).at() < old(self).text().len() && is_ordinary(
                old(self).text()[old(self).at()],
            ) ==> r == Ok::<Regex, ParseError>(Regex::Char(old(self).text()[old(self).at()]))
                && final(self).at() == old(self).at() + 1,
            r matches Ok(t) ==> !(t is Repetition),
            spec_base(old(self).text(), old(self).at()) == outcome_at(r, final(self).at()),
            r matches Ok(t) ==> base_tree_end(old(self).text(), old(self).at(), t) == final(self).at(),
        decreases old(self).text().len() - old(self).at(), 0nat,
    {
        match self.peek() {
            Some('(') => {
                let _ = self.next();
                let regex = match self.regex() {
                    Ok(t) => t,
                    Err(e) => { return Err(e); }
                };
                if self.expect(')') {
                    proof {
                        assert(base_tree_end(old(self).text(), old(self).at(), regex)
                            == self.at());
                    }
                    Ok(regex)
                } else {
                    Err(ParseError::UnterminatedGroup)
                }
            }
            Some('\\') => {
                let _ = self.next();
                match self.next() {
                    None => Err(ParseError::DanglingEscape),
                    Some('w') => {
                        proof {
                            assert(base_tree_end(
                                old(self).text(),
                                old(self).at(),
                                Regex::Primitive(Primitive::Word),
                            ) == self.at());
                        }
                        Ok(Regex::Primitive(Primitive::Word))
                    }
                    Some('d') => {
                        proof {
                            assert(base_tree_end(
                                old(self).text(),
                                old(self).at(),
                                Regex::Primitive(Primitive::Digit),
                            ) == self.at());
                        }
                        Ok(Regex::Primitive(Primitive::Digit))
                    }
                    Some(_) => Err(ParseError::UnknownEscapeClass),
                }
            }
            Some('[') => {
                let _ = self.next();
                let mut elems: Vec<Regex> = Vec::new();
                loop
                    invariant
                        self.wf(),
                        self.text() == old(self).text(),
                        self.at() > old(self).at(),
                        old(self).at() < old(self).text().len(),
                        old(self).text()[old(self).at()] == '[',
                        spec_class(old(self).text(), old(self).at() + 1) == spec_class(
                            old(self).text(),
                            self.at(),
                        ),
                        class_chain_end(old(self).text(), old(self).at() + 1, elems@)
                            == self.at(),
                    ensures
                        self.wf(),
                        self.text() == old(self).text(),
                        self.at() > old(self).at(),
                        self.at() < self.text().len(),
                        self.text()[self.at()] == ']',
                        spec_class(old(self).text(), old(self).at() + 1) == spec_class(
                            old(self).text(),
                            self.at(),
                        ),
                        class_chain_end(old(self).text(), old(self).at() + 1, elems@)
                            == self.at(),
                    decreases self.text().len() - self.at(),
                {
                    match self.peek() {
                        None => { return Err(ParseError::UnterminatedSet); }
                        Some(']') => { break; }
                        Some(_) => {}
                    }
                    let ghost pre_elems = elems@;
                    let elem = match self.set_elem() {
                        Ok(t) => t,
                        Err(e) => { return Err(e); }
                    };
                    let ghost elem_snap = elem;
                    elems.push(elem);
                    proof {
                        assert(elems@.drop_last() =~= pre_elems);
                        assert(elems@.last() == elem_snap);
                    }
                }
                let _ = self.next();
                let result = Regex::Class(elems);
                proof {
                    assert(base_tree_end(old(self).text(), old(self).at(), result)
                        == self.at());
                }
                Ok(result)
            }
            Some(c) => {
                let _ = self.next();
                proof {
                    lemma_base_tree_char(old(self).text(), old(self).at(), self.at(), c);
                }
                Ok(Regex::Char(c))
            }
            None => Err(ParseError::UnexpectedEnd),
        }
    }

    /// One element of a character class: a lone character, or an
    /// inclusive range when a `-` and a further character follow.
    fn set_elem(&mut self) -> (r: RegexResult)
        requires
            old(self).wf(),
        ensures
            final(self).wf(),
            final(self).text() == old(self).text(),
            final(self).at() >= old(self).at(),
            r is Ok ==> final(self).at() > old(self).at(),
            r matches Ok(elem) ==> elem is Char || elem is Range,
            set_elem_rel(old(self).text(), old(self).at(), r, final(self).at()),
            spec_set_elem(old(self).text(), old(self).at()) == outcome_at(r, final(self).at()),
            r matches Ok(elem) ==> set_elem_tree_end(old(self).text(), old(self).at(), elem)
                == final(self).at(),
    {
        let first_char = match self.next() {
            Some(c) => c,
            None => { return Err(ParseError::UnterminatedSet); }
        };

        match self.peek() {
            Some('-') => {
                let _ = self.next();
                match self.next() {
                    Some(second_char) => Ok(Regex::Range(first_char, second_char)),
                    None => Err(ParseError::UnexpectedEnd),
                }
            }
            _ => Ok(Regex::Char(first_char)),
        }
    }
}

} // verus!
