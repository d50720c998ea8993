//! The parser: recursive descent over the tokens, one function for each
//! rule of the grammar.
//!
//! ```text
//! statement   := assign-expr ';'                        assign
//! assign-expr := add-expr ('=' assign-expr)?            assign_expr
//! add-expr    := mul-expr (('+' | '-') mul-expr)*       add
//! mul-expr    := term (('*' | '/' | '%') term)*         mul
//! term        := Number | '(' add-expr ')'              term
//! ```
//!
//! Where the input has ended, a term is an `Eof` leaf that takes no token.

use crate::ast::{
    code_values, is_expression, is_statement, lemma_statement_well_formed, Ast, Astty, Code,
    SpecAst, SpecAstty,
};
use crate::token::{token_at, token_values, SpecToken, Token};
use vstd::prelude::*;

verus! {

/// The three ways in which a sequence of tokens is no program.
#[derive(Clone, Copy, PartialEq, Eq, Debug, Structural)]
pub enum ParseErrorKind {
    /// A `(` whose expression is not followed by `)`.
    UnbalancedParen,
    /// A statement that is not followed by `;`.
    MissingTerminator,
    /// A token that begins no term where a term must stand.
    UnexpectedToken,
}

/// A parse error: its kind, the offending token and the index of that token.
#[derive(PartialEq, Eq, Debug)]
pub struct ParseError {
    pub kind: ParseErrorKind,
    pub found: Token,
    pub pos: usize,
}

/// The mathematical value of a [`ParseError`].
pub struct SpecParseError {
    pub kind: ParseErrorKind,
    pub found: SpecToken,
    pub pos: int,
}

impl View for ParseError {
    type V = SpecParseError;

    open spec fn view(&self) -> SpecParseError {
        SpecParseError { kind: self.kind, found: self.found@, pos: self.pos as int }
    }
}

/// What a rule makes of the tokens from some index on: a tree and the number
/// of tokens that it took, or an error.
pub type Parsed = Result<(SpecAst, nat), SpecParseError>;

/// The error of kind `kind` at index `i`.
pub open spec fn fail(kind: ParseErrorKind, ts: Seq<SpecToken>, i: int) -> Parsed {
    Err(SpecParseError { kind, found: token_at(ts, i), pos: i })
}

/// The result `r` of a rule that was applied after `n` tokens had been taken.
pub open spec fn after(n: nat, r: Parsed) -> Parsed {
    match r {
        Ok((tree, m)) => Ok((tree, n + m)),
        Err(e) => Err(e),
    }
}

/// The number of tokens from index `i` on.
pub open spec fn tokens_left(ts: Seq<SpecToken>, i: int) -> nat {
    if i < ts.len() {
        (ts.len() - i) as nat
    } else {
        0
    }
}

/// The operator that a token stands for in a product.
pub open spec fn mul_op(t: SpecToken) -> Option<SpecAstty> {
    match t {
        SpecToken::Mul => Some(SpecAstty::Mul),
        SpecToken::Div => Some(SpecAstty::Div),
        SpecToken::Mod => Some(SpecAstty::Mod),
        _ => None,
    }
}

/// The operator that a token stands for in a sum.
pub open spec fn add_op(t: SpecToken) -> Option<SpecAstty> {
    match t {
        SpecToken::Add => Some(SpecAstty::Add),
        SpecToken::Sub => Some(SpecAstty::Sub),
        _ => None,
    }
}

/// `term := Number | '(' add-expr ')'`
pub open spec fn parse_term(ts: Seq<SpecToken>, i: int) -> Parsed
    decreases tokens_left(ts, i), 0nat,
{
    match token_at(ts, i) {
        SpecToken::Eof => Ok((SpecAst::leaf(SpecAstty::Eof), 0)),
        SpecToken::Num(n) => Ok((SpecAst::leaf(SpecAstty::Num(n)), 1)),
        SpecToken::ParL => match parse_add(ts, i + 1) {
            Err(e) => Err(e),
            Ok((inner, n)) => if token_at(ts, i + 1 + n) is ParR {
                Ok((inner, n + 2))
            } else {
                fail(ParseErrorKind::UnbalancedParen, ts, i + 1 + n)
            },
        },
        _ => fail(ParseErrorKind::UnexpectedToken, ts, i),
    }
}

/// The rest of a product whose operands so far make up `lhs`: each further
/// operator takes `lhs` as its left operand.
pub open spec fn mul_rest(ts: Seq<SpecToken>, lhs: SpecAst, i: int) -> Parsed
    decreases tokens_left(ts, i), 1nat,
{
    match mul_op(token_at(ts, i)) {
        None => Ok((lhs, 0)),
        Some(op) => match parse_term(ts, i + 1) {
            Err(e) => Err(e),
            Ok((rhs, n)) => after(1 + n, mul_rest(ts, SpecAst::binary(op, lhs, rhs), i + 1 + n)),
        },
    }
}

/// `mul-expr := term (('*' | '/' | '%') term)*`
pub open spec fn parse_mul(ts: Seq<SpecToken>, i: int) -> Parsed
    decreases tokens_left(ts, i), 2nat,
{
    match parse_term(ts, i) {
        Err(e) => Err(e),
        Ok((lhs, n)) => after(n, mul_rest(ts, lhs, i + n)),
    }
}

/// The rest of a sum whose operands so far make up `lhs`.
pub open spec fn add_rest(ts: Seq<SpecToken>, lhs: SpecAst, i: int) -> Parsed
    decreases tokens_left(ts, i), 3nat,
{
    match add_op(token_at(ts, i)) {
        None => Ok((lhs, 0)),
        Some(op) => match parse_mul(ts, i + 1) {
            Err(e) => Err(e),
            Ok((rhs, n)) => after(1 + n, add_rest(ts, SpecAst::binary(op, lhs, rhs), i + 1 + n)),
        },
    }
}

/// `add-expr := mul-expr (('+' | '-') mul-expr)*`
pub open spec fn parse_add(ts: Seq<SpecToken>, i: int) -> Parsed
    decreases tokens_left(ts, i), 4nat,
{
    match parse_mul(ts, i) {
        Err(e) => Err(e),
        Ok((lhs, n)) => after(n, add_rest(ts, lhs, i + n)),
    }
}

/// `assign-expr := add-expr ('=' assign-expr)?`
pub open spec fn parse_assign(ts: Seq<SpecToken>, i: int) -> Parsed
    decreases tokens_left(ts, i),
{
    match parse_add(ts, i) {
        Err(e) => Err(e),
        Ok((lhs, n)) => if token_at(ts, i + n) is Assign {
            match parse_assign(ts, i + n + 1) {
                Err(e) => Err(e),
                Ok((rhs, m)) => Ok((SpecAst::binary(SpecAstty::Assign, lhs, rhs), n + 1 + m)),
            }
        } else {
            Ok((lhs, n))
        },
    }
}

/// `statement := assign-expr ';'`
pub open spec fn parse_statement(ts: Seq<SpecToken>, i: int) -> Parsed {
    match parse_assign(ts, i) {
        Err(e) => Err(e),
        Ok((tree, n)) => if token_at(ts, i + n) is Semicolon {
            Ok((tree, n + 1))
        } else {
            fail(ParseErrorKind::MissingTerminator, ts, i + n)
        },
    }
}

/// The statements from index `i` on. The last token of the sequence stands
/// for the end of the input and begins no statement.
pub open spec fn parse_program(ts: Seq<SpecToken>, i: int) -> Result<Seq<SpecAst>, SpecParseError>
    decreases tokens_left(ts, i),
{
    if i + 1 < ts.len() {
        match parse_statement(ts, i) {
            Err(e) => Err(e),
            Ok((tree, n)) => match parse_program(ts, i + n) {
                Err(e) => Err(e),
                Ok(rest) => Ok(seq![tree] + rest),
            },
        }
    } else {
        Ok(Seq::empty())
    }
}

/// What holds of the tree that a rule has made from the tokens before
/// index `i`: it is an expression, unless the input ended before the rule
/// was through. Then the tree holds an `Eof` leaf, and the input has ended
/// at `i`.
pub open spec fn whole_or_ended(t: SpecAst, ts: Seq<SpecToken>, i: int) -> bool {
    is_expression(t) || token_at(ts, i) is Eof
}

/// The shape of a term.
pub proof fn lemma_term_shape(ts: Seq<SpecToken>, i: int)
    ensures
        parse_term(ts, i) matches Ok((t, n)) ==> whole_or_ended(t, ts, i + n),
    decreases tokens_left(ts, i), 0nat,
{
    if token_at(ts, i) is ParL {
        lemma_add_shape(ts, i + 1);
    }
}

/// The shape of a product, from the shape of its first operands.
pub proof fn lemma_mul_rest_shape(ts: Seq<SpecToken>, lhs: SpecAst, i: int)
    requires
        whole_or_ended(lhs, ts, i),
    ensures
        mul_rest(ts, lhs, i) matches Ok((t, n)) ==> whole_or_ended(t, ts, i + n),
    decreases tokens_left(ts, i), 1nat,
{
    if let Some(op) = mul_op(token_at(ts, i)) {
        lemma_term_shape(ts, i + 1);
        if let Ok((rhs, n)) = parse_term(ts, i + 1) {
            lemma_mul_rest_shape(ts, SpecAst::binary(op, lhs, rhs), i + 1 + n);
        }
    }
}

/// The shape of a product.
pub proof fn lemma_mul_shape(ts: Seq<SpecToken>, i: int)
    ensures
        parse_mul(ts, i) matches Ok((t, n)) ==> whole_or_ended(t, ts, i + n),
    decreases tokens_left(ts, i), 2nat,
{
    lemma_term_shape(ts, i);
    if let Ok((lhs, n)) = parse_term(ts, i) {
        lemma_mul_rest_shape(ts, lhs, i + n);
    }
}

/// The shape of a sum, from the shape of its first operands.
pub proof fn lemma_add_rest_shape(ts: Seq<SpecToken>, lhs: SpecAst, i: int)
    requires
        whole_or_ended(lhs, ts, i),
    ensures
        add_rest(ts, lhs, i) matches Ok((t, n)) ==> whole_or_ended(t, ts, i + n),
    decreases tokens_left(ts, i), 3nat,
{
    if let Some(op) = add_op(token_at(ts, i)) {
        lemma_mul_shape(ts, i + 1);
        if let Ok((rhs, n)) = parse_mul(ts, i + 1) {
            lemma_add_rest_shape(ts, SpecAst::binary(op, lhs, rhs), i + 1 + n);
        }
    }
}

/// The shape of a sum.
pub proof fn lemma_add_shape(ts: Seq<SpecToken>, i: int)
    ensures
        parse_add(ts, i) matches Ok((t, n)) ==> whole_or_ended(t, ts, i + n),
    decreases tokens_left(ts, i), 4nat,
{
    lemma_mul_shape(ts, i);
    if let Ok((lhs, n)) = parse_mul(ts, i) {
        lemma_add_rest_shape(ts, lhs, i + n);
    }
}

/// The shape of an assignment expression.
pub proof fn lemma_assign_shape(ts: Seq<SpecToken>, i: int)
    ensures
        parse_assign(ts, i) matches Ok((t, n)) ==> is_statement(t) || token_at(ts, i + n) is Eof,
    decreases tokens_left(ts, i),
{
    lemma_add_shape(ts, i);
    if let Ok((lhs, n)) = parse_add(ts, i) {
        if token_at(ts, i + n) is Assign {
            lemma_assign_shape(ts, i + n + 1);
        }
    }
}

/// A statement that parses is a statement tree: it holds no `Eof` leaf, and
/// without `=` among the tokens it is an expression.
pub proof fn lemma_statement_shape(ts: Seq<SpecToken>, i: int)
    ensures
        parse_statement(ts, i) matches Ok((t, n)) ==> is_statement(t) && n >= 1 && (t.ty is Assign
            || is_expression(t)),
        parse_statement(ts, i) matches Ok((t, n)) ==> (forall|k: int|
            0 <= k < ts.len() ==> !(#[trigger] ts[k] is Assign)) ==> is_expression(t),
{
    lemma_assign_shape(ts, i);
    lemma_add_shape(ts, i);
    if let Ok((lhs, n)) = parse_add(ts, i) {
        if token_at(ts, i + n) is Assign {
            assert(ts[i + n] is Assign);
        }
    }
}

/// Every tree of a program that parses is a statement tree, and without `=`
/// among the tokens an expression.
pub proof fn lemma_program_shape(ts: Seq<SpecToken>, i: int)
    ensures
        parse_program(ts, i) matches Ok(trees) ==> forall|k: int|
            0 <= k < trees.len() ==> is_statement(#[trigger] trees[k]),
        parse_program(ts, i) matches Ok(trees) ==> (forall|k: int|
            0 <= k < ts.len() ==> !(#[trigger] ts[k] is Assign)) ==> forall|k: int|
            0 <= k < trees.len() ==> is_expression(#[trigger] trees[k]),
    decreases tokens_left(ts, i),
{
    if i + 1 < ts.len() {
        lemma_statement_shape(ts, i);
        if let Ok((tree, n)) = parse_statement(ts, i) {
            lemma_program_shape(ts, i + n);
        }
    }
}

/// A program with a statement has a `;` among its tokens.
pub proof fn lemma_program_has_terminator(ts: Seq<SpecToken>, i: int)
    requires
        0 <= i,
    ensures
        parse_program(ts, i) matches Ok(trees) ==> trees.len() > 0 ==> exists|k: int|
            i <= k < ts.len() && #[trigger] ts[k] is Semicolon,
{
    if i + 1 < ts.len() {
        if let Ok((tree, n)) = parse_statement(ts, i) {
            assert(token_at(ts, i + n - 1) is Semicolon);
            assert(ts[i + n - 1] is Semicolon);
        }
    }
}

/// What a rule's function returns and where it leaves the cursor: behind
/// the tokens that it took, or on the offending token.
pub open spec fn yields(parsed: Parsed, r: Result<Ast, ParseError>, start: usize, end: usize) -> bool {
    match parsed {
        Ok((tree, n)) => r matches Ok(ast) && ast@ == tree && end == start + n,
        Err(e) => r matches Err(err) && err@ == e && end == e.pos,
    }
}

/// The token under the cursor, if the cursor is on one.
fn peek<'a>(toks: &'a [Token], idx: usize) -> (t: Option<&'a Token>)
    ensures
        match t {
            Some(tok) => idx < toks.len() && tok@ == token_at(token_values(toks@), idx as int),
            None => idx >= toks.len() && token_at(token_values(toks@), idx as int) is Eof,
        },
{
    if idx < toks.len() {
        Some(&toks[idx])
    } else {
        None
    }
}

/// The error of kind `kind` for the token under the cursor.
fn error_at(kind: ParseErrorKind, toks: &[Token], idx: usize) -> (e: ParseError)
    ensures
        fail(kind, token_values(toks@), idx as int) == Err::<(SpecAst, nat), SpecParseError>(e@),
{
    let found = match peek(toks, idx) {
        Some(tok) => tok.clone(),
        None => Token::Eof,
    };
    ParseError { kind, found, pos: idx }
}

/// Parses a term at the cursor.
pub fn term(toks: &[Token], idx: &mut usize) -> (r: Result<Ast, ParseError>)
    ensures
        yields(parse_term(token_values(toks@), *old(idx) as int), r, *old(idx), *final(idx)),
    decreases tokens_left(token_values(toks@), *old(idx) as int), 0nat,
{
    match peek(toks, *idx) {
        None => Ok(Ast::new0(Astty::Eof)),
        Some(Token::Eof) => Ok(Ast::new0(Astty::Eof)),
        Some(Token::ParL) => {
            *idx += 1;
            let node = match self::add(toks, idx) {
                Ok(node) => node,
                Err(e) => {
                    return Err(e);
                },
            };
            match peek(toks, *idx) {
                Some(Token::ParR) => {
                    *idx += 1;
                    Ok(node)
                },
                _ => Err(error_at(ParseErrorKind::UnbalancedParen, toks, *idx)),
            }
        },
        Some(Token::Num(n)) => {
            *idx += 1;
            Ok(Ast::new0(Astty::Num(*n)))
        },
        _ => Err(error_at(ParseErrorKind::UnexpectedToken, toks, *idx)),
    }
}

/// Parses a product at the cursor.
pub fn mul(toks: &[Token], idx: &mut usize) -> (r: Result<Ast, ParseError>)
    ensures
        yields(parse_mul(token_values(toks@), *old(idx) as int), r, *old(idx), *final(idx)),
    decreases tokens_left(token_values(toks@), *old(idx) as int), 2nat,
{
    let ghost ts = token_values(toks@);
    if toks.len() == *idx {
        return Ok(Ast::new0(Astty::Eof));
    }
    let mut node = match term(toks, idx) {
        Ok(node) => node,
        Err(e) => {
            return Err(e);
        },
    };
    loop
        invariant
            ts == token_values(toks@),
            *old(idx) <= *idx,
            parse_mul(ts, *old(idx) as int) == after(
                (*idx - *old(idx)) as nat,
                mul_rest(ts, node@, *idx as int),
            ),
        decreases tokens_left(ts, *idx as int),
    {
        let op = match peek(toks, *idx) {
            Some(Token::Mul) => Astty::Mul,
            Some(Token::Div) => Astty::Div,
            Some(Token::Mod) => Astty::Mod,
            _ => {
                return Ok(node);
            },
        };
        *idx += 1;
        let rhs = match term(toks, idx) {
            Ok(rhs) => rhs,
            Err(e) => {
                return Err(e);
            },
        };
        node = Ast::new2(op, node, rhs);
    }
}

/// Parses a sum at the cursor.
pub fn add(toks: &[Token], idx: &mut usize) -> (r: Result<Ast, ParseError>)
    ensures
        yields(parse_add(token_values(toks@), *old(idx) as int), r, *old(idx), *final(idx)),
    decreases tokens_left(token_values(toks@), *old(idx) as int), 4nat,
{
    let ghost ts = token_values(toks@);
    if toks.len() == *idx {
        return Ok(Ast::new0(Astty::Eof));
    }
    let mut node = match self::mul(toks, idx) {
        Ok(node) => node,
        Err(e) => {
            return Err(e);
        },
    };
    loop
        invariant
            ts == token_values(toks@),
            *old(idx) <= *idx,
            parse_add(ts, *old(idx) as int) == after(
                (*idx - *old(idx)) as nat,
                add_rest(ts, node@, *idx as int),
            ),
        decreases tokens_left(ts, *idx as int),
    {
        let op = match peek(toks, *idx) {
            Some(Token::Add) => Astty::Add,
            Some(Token::Sub) => Astty::Sub,
            _ => {
                return Ok(node);
            },
        };
        *idx += 1;
        let rhs = match self::mul(toks, idx) {
            Ok(rhs) => rhs,
            Err(e) => {
                return Err(e);
            },
        };
        node = Ast::new2(op, node, rhs);
    }
}

/// Parses an assignment expression at the cursor, without the `;` of its
/// statement: the right side of `=` is such an expression again.
pub fn assign_expr(toks: &[Token], idx: &mut usize) -> (r: Result<Ast, ParseError>)
    ensures
        yields(parse_assign(token_values(toks@), *old(idx) as int), r, *old(idx), *final(idx)),
    decreases tokens_left(token_values(toks@), *old(idx) as int),
{
    let node = match self::add(toks, idx) {
        Ok(node) => node,
        Err(e) => {
            return Err(e);
        },
    };
    match peek(toks, *idx) {
        Some(Token::Assign) => {
            *idx += 1;
            match assign_expr(toks, idx) {
                Ok(rhs) => Ok(Ast::new2(Astty::Assign, node, rhs)),
                Err(e) => Err(e),
            }
        },
        _ => Ok(node),
    }
}

/// Parses a statement at the cursor: an assignment expression and the `;`
/// that ends it. Without that `;` there is no statement, and the token in
/// its place is the error.
pub fn assign(toks: &[Token], idx: &mut usize) -> (r: Result<Ast, ParseError>)
    ensures
        yields(parse_statement(token_values(toks@), *old(idx) as int), r, *old(idx), *final(idx)),
{
    let node = match assign_expr(toks, idx) {
        Ok(node) => node,
        Err(e) => {
            return Err(e);
        },
    };
    match peek(toks, *idx) {
        Some(Token::Semicolon) => {
            *idx += 1;
            Ok(node)
        },
        _ => Err(error_at(ParseErrorKind::MissingTerminator, toks, *idx)),
    }
}

/// Parses a program: one tree for each statement, up to the last token,
/// which stands for the end of the input. So there is a last token: the
/// lexer closes every sequence with `Eof`.
pub fn parse(toks: &[Token]) -> (r: Result<Code, ParseError>)
    requires
        toks@.len() >= 1,
    ensures
        match parse_program(token_values(toks@), 0) {
            Ok(trees) => r matches Ok(code) && code_values(code@) == trees,
            Err(e) => r matches Err(err) && err@ == e,
        },
        r matches Ok(code) ==> forall|k: int|
            0 <= k < code@.len() ==> is_statement(#[trigger] code@[k]@) && code@[k]@.well_formed(),
        r matches Ok(code) ==> code@.len() > 0 ==> exists|k: int|
            0 <= k < toks@.len() && (#[trigger] toks@[k])@ is Semicolon,
{
    let ghost ts = token_values(toks@);
    proof {
        lemma_program_shape(ts, 0);
        lemma_program_has_terminator(ts, 0);
        if let Ok(trees) = parse_program(ts, 0) {
            if trees.len() > 0 {
                let k = choose|k: int| 0 <= k < ts.len() && #[trigger] ts[k] is Semicolon;
                assert(toks@[k]@ is Semicolon);
            }
        }
        if let Ok(trees) = parse_program(ts, 0) {
            assert forall|k: int| 0 <= k < trees.len() implies (#[trigger] trees[k]).well_formed() by {
                lemma_statement_well_formed(trees[k]);
            }
        }
    }
    let mut idx: usize = 0;
    let mut code: Code = Vec::new();
    assert(code_values(code@) =~= Seq::empty());
    while idx < toks.len() - 1
        invariant
            toks@.len() >= 1,
            ts == token_values(toks@),
            match parse_program(ts, idx as int) {
                Ok(rest) => parse_program(ts, 0) == Ok::<Seq<SpecAst>, SpecParseError>(
                    code_values(code@) + rest,
                ),
                Err(e) => parse_program(ts, 0) == Err::<Seq<SpecAst>, SpecParseError>(e),
            },
        decreases tokens_left(ts, idx as int),
    {
        let ghost before = code_values(code@);
        let node = match assign(toks, &mut idx) {
            Ok(node) => node,
            Err(e) => {
                return Err(e);
            },
        };
        code.push(Box::new(node));
        proof {
            assert(code_values(code@) =~= before.push(node@));
            if let Ok(rest) = parse_program(ts, idx as int) {
                assert(before + (seq![node@] + rest) =~= before.push(node@) + rest);
            }
        }
    }
    assert(code_values(code@) + Seq::<SpecAst>::empty() =~= code_values(code@));
    assert forall|k: int| 0 <= k < code@.len() implies is_statement(#[trigger] code@[k]@)
        && code@[k]@.well_formed() by {
        assert(code_values(code@)[k] == code@[k]@);
    }
    Ok(code)
}

} // verus!
