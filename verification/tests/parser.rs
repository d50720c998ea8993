use arith_compiler::ast::{Ast, Astty};
use arith_compiler::lexer::tokenize;
use arith_compiler::parser::{assign, assign_expr, parse, term, ParseError, ParseErrorKind};
use arith_compiler::token::Token;

fn toks(s: &str) -> Vec<Token> {
    let buf: Vec<char> = s.chars().collect();
    tokenize(&buf).unwrap()
}

fn num(n: usize) -> Ast {
    Ast::new0(Astty::Num(n))
}

fn bin(ty: Astty, l: Ast, r: Ast) -> Ast {
    Ast::new2(ty, l, r)
}

fn one(s: &str) -> Ast {
    let mut code = parse(&toks(s)).unwrap();
    assert_eq!(code.len(), 1);
    *code.pop().unwrap()
}

#[test]
fn constructors_build_leaves_and_binary_nodes() {
    let leaf = Ast::new0(Astty::Num(3));
    assert_eq!(leaf.ty, Astty::Num(3));
    assert!(leaf.args.is_empty());
    let node = Ast::new2(Astty::Sub, num(1), num(2));
    assert_eq!(node.ty, Astty::Sub);
    assert_eq!(node.args.len(), 2);
    assert_eq!(*node.args[0], num(1));
    assert_eq!(*node.args[1], num(2));
}

#[test]
fn product_binds_tighter_than_sum() {
    assert_eq!(one("1+2*3;"), bin(Astty::Add, num(1), bin(Astty::Mul, num(2), num(3))));
    assert_eq!(one("1*2+3;"), bin(Astty::Add, bin(Astty::Mul, num(1), num(2)), num(3)));
    assert_eq!(one("8-6/2;"), bin(Astty::Sub, num(8), bin(Astty::Div, num(6), num(2))));
    assert_eq!(one("8%3-1;"), bin(Astty::Sub, bin(Astty::Mod, num(8), num(3)), num(1)));
}

#[test]
fn operators_associate_to_the_left() {
    assert_eq!(one("1-2-3;"), bin(Astty::Sub, bin(Astty::Sub, num(1), num(2)), num(3)));
    assert_eq!(one("8/4/2;"), bin(Astty::Div, bin(Astty::Div, num(8), num(4)), num(2)));
    assert_eq!(
        one("1+2-3+4;"),
        bin(Astty::Add, bin(Astty::Sub, bin(Astty::Add, num(1), num(2)), num(3)), num(4))
    );
    assert_eq!(
        one("2*3%4/5;"),
        bin(Astty::Div, bin(Astty::Mod, bin(Astty::Mul, num(2), num(3)), num(4)), num(5))
    );
}

#[test]
fn parentheses_override_precedence() {
    assert_eq!(one("(1+2)*3;"), bin(Astty::Mul, bin(Astty::Add, num(1), num(2)), num(3)));
    assert_eq!(one("1-(2-3);"), bin(Astty::Sub, num(1), bin(Astty::Sub, num(2), num(3))));
    assert_eq!(one("2*(3*4);"), bin(Astty::Mul, num(2), bin(Astty::Mul, num(3), num(4))));
}

#[test]
fn redundant_parentheses_do_not_change_the_tree() {
    let pairs = [
        ("((1+2))*3;", "(1+2)*3;"),
        ("(1*2)+3;", "1*2+3;"),
        ("1+(2*3);", "1+2*3;"),
        ("((1));", "1;"),
        ("(1-2)-3;", "1-2-3;"),
        ("((1-(2-3)))*(4);", "(1-(2-3))*4;"),
        ("(((7%(2)))/((3))+(1));", "7%2/3+1;"),
    ];
    for (with, without) in pairs {
        assert_eq!(one(with), one(without));
    }
}

#[test]
fn needed_parentheses_change_the_tree() {
    assert_ne!(one("(1+2)*3;"), one("1+2*3;"));
    assert_ne!(one("1-(2-3);"), one("1-2-3;"));
    assert_ne!(one("2*(3*4);"), one("2*3*4;"));
}

#[test]
fn assignment_associates_to_the_right() {
    assert_eq!(
        one("1=2=3;"),
        bin(Astty::Assign, num(1), bin(Astty::Assign, num(2), num(3)))
    );
    assert_eq!(
        one("1+2=3*4;"),
        bin(
            Astty::Assign,
            bin(Astty::Add, num(1), num(2)),
            bin(Astty::Mul, num(3), num(4))
        )
    );
}

#[test]
fn one_tree_for_each_statement() {
    let code = parse(&toks("1+2;3*4;5;")).unwrap();
    assert_eq!(code.len(), 3);
    assert_eq!(*code[0], bin(Astty::Add, num(1), num(2)));
    assert_eq!(*code[1], bin(Astty::Mul, num(3), num(4)));
    assert_eq!(*code[2], num(5));
}

#[test]
fn no_statement_is_an_empty_program() {
    assert!(parse(&toks("")).unwrap().is_empty());
    assert!(parse(&toks(" \n ")).unwrap().is_empty());
    assert!(parse(&[Token::Eof]).unwrap().is_empty());
}

#[test]
fn the_last_token_begins_no_statement() {
    let code = parse(&[Token::Num(1), Token::Semicolon, Token::Num(2)]).unwrap();
    assert_eq!(code.len(), 1);
    assert_eq!(*code[0], num(1));
}

#[test]
fn missing_terminator() {
    assert_eq!(
        parse(&toks("1+2")),
        Err(ParseError { kind: ParseErrorKind::MissingTerminator, found: Token::Eof, pos: 3 })
    );
    assert_eq!(
        parse(&toks("1 2;")),
        Err(ParseError { kind: ParseErrorKind::MissingTerminator, found: Token::Num(2), pos: 1 })
    );
    assert_eq!(
        parse(&toks("1;2)")),
        Err(ParseError { kind: ParseErrorKind::MissingTerminator, found: Token::ParR, pos: 3 })
    );
    assert_eq!(
        parse(&toks("1+;")),
        Err(ParseError {
            kind: ParseErrorKind::UnexpectedToken,
            found: Token::Semicolon,
            pos: 2
        })
    );
}

#[test]
fn unbalanced_parenthesis() {
    assert_eq!(
        parse(&toks("(1+2;")),
        Err(ParseError {
            kind: ParseErrorKind::UnbalancedParen,
            found: Token::Semicolon,
            pos: 4
        })
    );
    assert_eq!(
        parse(&toks("((1)")),
        Err(ParseError { kind: ParseErrorKind::UnbalancedParen, found: Token::Eof, pos: 4 })
    );
    assert_eq!(
        parse(&toks("(1 2);")),
        Err(ParseError { kind: ParseErrorKind::UnbalancedParen, found: Token::Num(2), pos: 2 })
    );
}

#[test]
fn unexpected_token() {
    assert_eq!(
        parse(&toks("*1;")),
        Err(ParseError { kind: ParseErrorKind::UnexpectedToken, found: Token::Mul, pos: 0 })
    );
    assert_eq!(
        parse(&toks("1+*2;")),
        Err(ParseError { kind: ParseErrorKind::UnexpectedToken, found: Token::Mul, pos: 2 })
    );
    assert_eq!(
        parse(&toks("();")),
        Err(ParseError { kind: ParseErrorKind::UnexpectedToken, found: Token::ParR, pos: 1 })
    );
    assert_eq!(
        parse(&toks("a=1;")),
        Err(ParseError {
            kind: ParseErrorKind::UnexpectedToken,
            found: Token::Id("a".to_string()),
            pos: 0
        })
    );
    assert_eq!(
        parse(&toks(";")),
        Err(ParseError {
            kind: ParseErrorKind::UnexpectedToken,
            found: Token::Semicolon,
            pos: 0
        })
    );
    assert_eq!(
        parse(&toks("1=;")),
        Err(ParseError {
            kind: ParseErrorKind::UnexpectedToken,
            found: Token::Semicolon,
            pos: 2
        })
    );
}

#[test]
fn the_first_error_is_reported() {
    assert_eq!(
        parse(&toks("1;(2;*")),
        Err(ParseError {
            kind: ParseErrorKind::UnbalancedParen,
            found: Token::Semicolon,
            pos: 4
        })
    );
}

#[test]
fn a_term_at_the_end_of_input_is_an_eof_leaf() {
    let t = toks("1+");
    let mut idx = 2;
    assert_eq!(term(&t, &mut idx), Ok(Ast::new0(Astty::Eof)));
    assert_eq!(idx, 2);
    idx = 3;
    assert_eq!(term(&t, &mut idx), Ok(Ast::new0(Astty::Eof)));
    assert_eq!(idx, 3);
    idx = 0;
    assert_eq!(
        arith_compiler::parser::add(&t, &mut idx),
        Ok(bin(Astty::Add, num(1), Ast::new0(Astty::Eof)))
    );
    assert_eq!(idx, 2);
    idx = 2;
    assert_eq!(arith_compiler::parser::mul(&t, &mut idx), Ok(Ast::new0(Astty::Eof)));
    assert_eq!(idx, 2);
    idx = 2;
    assert_eq!(assign_expr(&t, &mut idx), Ok(Ast::new0(Astty::Eof)));
    assert_eq!(idx, 2);
    idx = 0;
    assert_eq!(
        assign(&t, &mut idx),
        Err(ParseError { kind: ParseErrorKind::MissingTerminator, found: Token::Eof, pos: 2 })
    );
    assert_eq!(idx, 2);
}

#[test]
fn each_rule_stops_where_it_ends() {
    let t = toks("1*2+3=4;5");
    let mut idx = 0;
    assert_eq!(term(&t, &mut idx), Ok(num(1)));
    assert_eq!(idx, 1);
    idx = 0;
    assert_eq!(arith_compiler::parser::mul(&t, &mut idx), Ok(bin(Astty::Mul, num(1), num(2))));
    assert_eq!(idx, 3);
    idx = 0;
    assert_eq!(
        arith_compiler::parser::add(&t, &mut idx),
        Ok(bin(Astty::Add, bin(Astty::Mul, num(1), num(2)), num(3)))
    );
    assert_eq!(idx, 5);
    idx = 0;
    let whole = bin(
        Astty::Assign,
        bin(Astty::Add, bin(Astty::Mul, num(1), num(2)), num(3)),
        num(4),
    );
    assert_eq!(assign_expr(&t, &mut idx), Ok(whole));
    assert_eq!(idx, 7);
    idx = 0;
    assert!(assign(&t, &mut idx).is_ok());
    assert_eq!(idx, 8);
}

#[test]
fn assign_takes_the_terminator_of_its_statement() {
    let t = toks("1=2=3;");
    let mut idx = 0;
    assert_eq!(
        assign(&t, &mut idx),
        Ok(bin(Astty::Assign, num(1), bin(Astty::Assign, num(2), num(3))))
    );
    assert_eq!(idx, 6);
    assert_eq!(t[idx - 1], Token::Semicolon);

    let t = toks("1+2;3;");
    let mut idx = 0;
    assert_eq!(assign(&t, &mut idx), Ok(bin(Astty::Add, num(1), num(2))));
    assert_eq!(idx, 4);
    assert_eq!(assign(&t, &mut idx), Ok(num(3)));
    assert_eq!(idx, 6);
}

#[test]
fn assign_fails_where_no_terminator_follows() {
    let t = toks("1+2 3;");
    let mut idx = 0;
    assert_eq!(
        assign(&t, &mut idx),
        Err(ParseError { kind: ParseErrorKind::MissingTerminator, found: Token::Num(3), pos: 3 })
    );
    assert_eq!(idx, 3);
    let t = toks("1+2)");
    let mut idx = 0;
    assert_eq!(
        assign(&t, &mut idx),
        Err(ParseError { kind: ParseErrorKind::MissingTerminator, found: Token::ParR, pos: 3 })
    );
    let t = toks("1=2");
    let mut idx = 0;
    assert_eq!(
        assign(&t, &mut idx),
        Err(ParseError { kind: ParseErrorKind::MissingTerminator, found: Token::Eof, pos: 3 })
    );
}

#[test]
fn assign_expr_leaves_the_terminator() {
    let t = toks("1=2=3;");
    let mut idx = 0;
    assert_eq!(
        assign_expr(&t, &mut idx),
        Ok(bin(Astty::Assign, num(1), bin(Astty::Assign, num(2), num(3))))
    );
    assert_eq!(idx, 5);
    assert_eq!(t[idx], Token::Semicolon);
    let t = toks("1+2 3;");
    let mut idx = 0;
    assert_eq!(assign_expr(&t, &mut idx), Ok(bin(Astty::Add, num(1), num(2))));
    assert_eq!(idx, 3);
}

#[test]
fn a_parenthesised_term_takes_both_parentheses() {
    let t = toks("(1+2)*3;");
    let mut idx = 0;
    assert_eq!(term(&t, &mut idx), Ok(bin(Astty::Add, num(1), num(2))));
    assert_eq!(idx, 5);
}

#[test]
fn on_error_the_cursor_is_on_the_offending_token() {
    let t = toks("(1+2;");
    let mut idx = 0;
    let e = term(&t, &mut idx).unwrap_err();
    assert_eq!(e.kind, ParseErrorKind::UnbalancedParen);
    assert_eq!(e.pos, 4);
    assert_eq!(idx, 4);
    let t = toks("1+)");
    let mut idx = 0;
    let e = arith_compiler::parser::add(&t, &mut idx).unwrap_err();
    assert_eq!(e.kind, ParseErrorKind::UnexpectedToken);
    assert_eq!(e.found, Token::ParR);
    assert_eq!(idx, 2);
}
