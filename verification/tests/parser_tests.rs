use regexp_automaton::ast;
use regexp_automaton::ast::empty;
use regexp_automaton::ast::literal;
use regexp_automaton::ast::star;
use regexp_automaton::ast::union;
use regexp_automaton::ast::unit;
use regexp_automaton::ast::RegExp;
use regexp_automaton::error::ParseError;
use regexp_automaton::parser::parse_regexp;

#[test]
fn parser_test_empty() {
    assert_eq!(parse_regexp("#"), Ok(empty()));
}

#[test]
fn test_epsilon() {
    assert_eq!(parse_regexp("()"), Ok(unit()));
}

#[test]
fn parser_test_literal() {
    assert_eq!(parse_regexp("a"), Ok(literal('a')));
}

#[test]
fn parser_test_concat() {
    assert_eq!(
        parse_regexp("ab"),
        Ok(ast::concat(vec![literal('a'), literal('b')]))
    );
}

#[test]
fn parser_test_union() {
    assert_eq!(
        parse_regexp("a|b"),
        Ok(union(vec![literal('a'), literal('b')]))
    );
}

#[test]
fn parser_test_star() {
    assert_eq!(parse_regexp("a*"), Ok(star(literal('a'))));
}

#[test]
fn parser_test_composite() {
    let expected = ast::concat(vec![
        star(union(vec![literal('a'), literal('b')])),
        star(literal('c')),
    ]);
    assert_eq!(parse_regexp("(a|b)*c*"), Ok(expected));
}

#[test]
fn test_reparse() {
    let expected = ast::concat(vec![
        star(union(vec![literal('a'), literal('b')])),
        star(literal('c')),
    ]);
    assert_eq!(parse_regexp(&expected.render()), Ok(expected));
}

// Parsing, rendering and re-parsing an input yields the same tree.
#[test]
fn parse_render_reparse_roundtrip() {
    let first = parse_regexp("(a|b)*c*").unwrap();
    let again = parse_regexp(&first.render()).unwrap();
    let reference = parse_regexp("(a|b)*c*").unwrap();
    assert_eq!(again, reference);
}

// The canonical rendering parenthesizes every composite child.
#[test]
fn render_is_fully_parenthesized() {
    let tree = ast::concat(vec![
        star(union(vec![literal('a'), literal('b')])),
        star(literal('c')),
    ]);
    assert_eq!(tree.render(), "(((a)|(b))*)((c)*)");
    assert_eq!(empty().render(), "#");
    assert_eq!(unit().render(), "()");
    assert_eq!(literal('q').render(), "q");
}

// The smart constructors collapse empty and singleton child lists.
#[test]
fn smart_constructor_collapse() {
    assert_eq!(ast::concat(vec![]), unit());
    assert_eq!(union(vec![]), empty());
    assert_eq!(ast::concat(vec![literal('a')]), literal('a'));
    assert_eq!(union(vec![literal('a')]), literal('a'));
    assert!(matches!(
        ast::concat(vec![literal('a'), literal('b')]),
        RegExp::Concat(_)
    ));
    assert!(matches!(
        union(vec![literal('a'), literal('b')]),
        RegExp::Union(_)
    ));
}

// A parse failure names the position where parsing stopped.
#[test]
fn parse_error_positions() {
    assert_eq!(parse_regexp("a)b"), Err(ParseError { position: 1 }));
    assert_eq!(parse_regexp(")ab"), Err(ParseError { position: 0 }));
    assert_eq!(parse_regexp(""), Err(ParseError { position: 0 }));
    assert_eq!(parse_regexp("a**"), Err(ParseError { position: 2 }));
    assert_eq!(parse_regexp("A"), Err(ParseError { position: 0 }));
}
