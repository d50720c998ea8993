//! Trees written back as tokens, with parentheses only where the grammar
//! needs them, and the proof that the parser reads them back.

use crate::ast::{is_expression, is_statement, SpecAst, SpecAstty};
use crate::parser::{
    add_op, add_rest, after, lemma_program_shape, lemma_statement_shape, mul_op, mul_rest,
    parse_add, parse_assign, parse_mul, parse_program, parse_statement, parse_term, tokens_left,
    SpecParseError,
};
use crate::token::{token_at, SpecToken};
use vstd::prelude::*;

verus! {

/// How tightly a node binds: a sum 0, a product 1, a number 2. These are
/// also the levels of the grammar: where the level `n` is expected, a node
/// that binds less tightly stands in parentheses.
pub open spec fn level_of(ty: SpecAstty) -> nat {
    if ty is Add || ty is Sub {
        0
    } else if ty is Mul || ty is Div || ty is Mod {
        1
    } else {
        2
    }
}

/// The token of an operator.
pub open spec fn op_token(ty: SpecAstty) -> SpecToken {
    match ty {
        SpecAstty::Add => SpecToken::Add,
        SpecAstty::Sub => SpecToken::Sub,
        SpecAstty::Mul => SpecToken::Mul,
        SpecAstty::Div => SpecToken::Div,
        SpecAstty::Mod => SpecToken::Mod,
        _ => SpecToken::Assign,
    }
}

/// The tokens of the expression `t` where the grammar expects the level
/// `level`. The left operand of an operator stands at the operator's own
/// level and the right operand one level above it, as the operators
/// associate to the left.
pub open spec fn print(t: SpecAst, level: nat) -> Seq<SpecToken>
    decreases t,
{
    match t.ty {
        SpecAstty::Num(n) => seq![SpecToken::Num(n)],
        _ => if t.ty.is_arith() && t.args.len() == 2 {
            let own = level_of(t.ty);
            let inner = print(t.args[0], own) + seq![op_token(t.ty)] + print(t.args[1], own + 1);
            if own < level {
                seq![SpecToken::ParL] + inner + seq![SpecToken::ParR]
            } else {
                inner
            }
        } else {
            Seq::empty()
        },
    }
}

/// The tokens of a statement tree, without the `;`.
pub open spec fn print_statement(t: SpecAst) -> Seq<SpecToken>
    decreases t,
{
    if t.ty is Assign && t.args.len() == 2 {
        print(t.args[0], 0) + seq![SpecToken::Assign] + print_statement(t.args[1])
    } else {
        print(t, 0)
    }
}

/// The tokens `p` stand in `ts` from index `i` on.
pub open spec fn occurs_at(ts: Seq<SpecToken>, i: int, p: Seq<SpecToken>) -> bool {
    &&& 0 <= i
    &&& i + p.len() <= ts.len()
    &&& forall|j: int| 0 <= j < p.len() ==> ts[i + j] == #[trigger] p[j]
}

/// Where two stretches of tokens stand one behind the other, each stands
/// in its place.
proof fn lemma_occurs_split(ts: Seq<SpecToken>, i: int, a: Seq<SpecToken>, b: Seq<SpecToken>)
    requires
        occurs_at(ts, i, a + b),
    ensures
        occurs_at(ts, i, a),
        occurs_at(ts, i + a.len(), b),
{
    assert forall|j: int| 0 <= j < a.len() implies ts[i + j] == #[trigger] a[j] by {
        assert((a + b)[j] == a[j]);
    }
    assert forall|j: int| 0 <= j < b.len() implies ts[i + a.len() + j] == #[trigger] b[j] by {
        assert((a + b)[a.len() + j] == b[j]);
    }
}

/// Where a single token stands, it is the token under the cursor.
proof fn lemma_occurs_token(ts: Seq<SpecToken>, i: int, t: SpecToken)
    requires
        occurs_at(ts, i, seq![t]),
    ensures
        token_at(ts, i) == t,
{
    assert(seq![t][0] == t);
}

/// What it is to read `t` back at level `level` from the `k` tokens at
/// index `i`: a term is read whole, and a product or a sum as the operands so
/// far of whatever product or sum follows.
pub open spec fn reads_back(ts: Seq<SpecToken>, i: int, t: SpecAst, level: nat, k: nat) -> bool {
    if level == 0 {
        parse_add(ts, i) == after(k, add_rest(ts, t, i + k))
    } else if level == 1 {
        parse_mul(ts, i) == after(k, mul_rest(ts, t, i + k))
    } else {
        parse_term(ts, i) == Ok::<(SpecAst, nat), SpecParseError>((t, k))
    }
}

/// The number of levels from `level` up to the node's own, around the three
/// levels.
spec fn rank(t: SpecAst, level: nat) -> nat {
    ((level_of(t.ty) + 3 - level) % 3) as nat
}

/// The parser reads a printed expression back, level by level.
proof fn lemma_reads_back(ts: Seq<SpecToken>, i: int, t: SpecAst, level: nat)
    requires
        is_expression(t),
        level <= 2,
        occurs_at(ts, i, print(t, level)),
        level == 0 ==> mul_op(token_at(ts, i + print(t, level).len())) is None,
    ensures
        reads_back(ts, i, t, level, print(t, level).len()),
    decreases t, rank(t, level),
{
    let k = print(t, level).len();
    if t.ty is Num {
        let n = t.ty->Num_0;
        assert(t.args =~= Seq::empty());
        assert(t == SpecAst::leaf(SpecAstty::Num(n)));
        lemma_occurs_token(ts, i, SpecToken::Num(n));
        assert(parse_term(ts, i) == Ok::<(SpecAst, nat), SpecParseError>((t, 1)));
        if level == 0 {
            assert(mul_rest(ts, t, i + 1) == Ok::<(SpecAst, nat), SpecParseError>((t, 0)));
            assert(parse_mul(ts, i) == Ok::<(SpecAst, nat), SpecParseError>((t, 1)));
        }
    } else {
        let own = level_of(t.ty);
        let lhs = t.args[0];
        let rhs = t.args[1];
        let op = op_token(t.ty);
        let left = print(lhs, own);
        let right = print(rhs, own + 1);
        let inner = left + seq![op] + right;
        assert(t.args =~= seq![lhs, rhs]);
        assert(t == SpecAst::binary(t.ty, lhs, rhs));
        if own < level {
            if level == 2 {
                assert(print(t, 0) == inner);
                lemma_occurs_split(ts, i, seq![SpecToken::ParL] + inner, seq![SpecToken::ParR]);
                lemma_occurs_split(ts, i, seq![SpecToken::ParL], inner);
                lemma_occurs_token(ts, i, SpecToken::ParL);
                lemma_occurs_token(ts, i + 1 + inner.len(), SpecToken::ParR);
                lemma_reads_back(ts, i + 1, t, 0);
                assert(add_rest(ts, t, i + 1 + inner.len()) == Ok::<(SpecAst, nat), SpecParseError>(
                    (t, 0),
                ));
                assert(parse_add(ts, i + 1) == Ok::<(SpecAst, nat), SpecParseError>(
                    (t, inner.len()),
                ));
            } else {
                assert(print(t, 2) == print(t, 1));
                lemma_reads_back(ts, i, t, 2);
            }
        } else if own == level {
            lemma_occurs_split(ts, i, left + seq![op], right);
            lemma_occurs_split(ts, i, left, seq![op]);
            lemma_occurs_token(ts, i + left.len(), op);
            let mid = i + left.len();
            lemma_reads_back(ts, i, lhs, own);
            lemma_reads_back(ts, mid + 1, rhs, own + 1);
            if own == 0 {
                assert(add_op(token_at(ts, mid)) == Some(t.ty));
                assert(mul_rest(ts, rhs, mid + 1 + right.len()) == Ok::<
                    (SpecAst, nat),
                    SpecParseError,
                >((rhs, 0)));
                assert(parse_mul(ts, mid + 1) == Ok::<(SpecAst, nat), SpecParseError>(
                    (rhs, right.len()),
                ));
                assert(add_rest(ts, lhs, mid) == after(
                    1 + right.len(),
                    add_rest(ts, t, mid + 1 + right.len()),
                ));
            } else {
                assert(mul_op(token_at(ts, mid)) == Some(t.ty));
                assert(parse_term(ts, mid + 1) == Ok::<(SpecAst, nat), SpecParseError>(
                    (rhs, right.len()),
                ));
                assert(mul_rest(ts, lhs, mid) == after(
                    1 + right.len(),
                    mul_rest(ts, t, mid + 1 + right.len()),
                ));
            }
        } else {
            assert(print(t, 1) == print(t, 0));
            lemma_reads_back(ts, i, t, 1);
            assert(mul_rest(ts, t, i + k) == Ok::<(SpecAst, nat), SpecParseError>((t, 0)));
            assert(parse_mul(ts, i) == Ok::<(SpecAst, nat), SpecParseError>((t, k)));
        }
    }
}

/// An expression, printed and followed by a token that continues neither a
/// product nor a sum, parses as that expression.
pub proof fn lemma_expression_round_trip(ts: Seq<SpecToken>, i: int, t: SpecAst)
    requires
        is_expression(t),
        occurs_at(ts, i, print(t, 0)),
        mul_op(token_at(ts, i + print(t, 0).len())) is None,
        add_op(token_at(ts, i + print(t, 0).len())) is None,
    ensures
        parse_add(ts, i) == Ok::<(SpecAst, nat), SpecParseError>((t, print(t, 0).len())),
{
    lemma_reads_back(ts, i, t, 0);
}

/// A statement tree, printed and followed by a token other than `=`, an
/// operator or a parenthesis, parses as that tree.
pub proof fn lemma_assign_round_trip(ts: Seq<SpecToken>, i: int, t: SpecAst)
    requires
        is_statement(t),
        occurs_at(ts, i, print_statement(t)),
        token_at(ts, i + print_statement(t).len()) is Semicolon,
    ensures
        parse_assign(ts, i) == Ok::<(SpecAst, nat), SpecParseError>((t, print_statement(t).len())),
    decreases t,
{
    if t.ty is Assign {
        let lhs = t.args[0];
        let rhs = t.args[1];
        let left = print(lhs, 0);
        let right = print_statement(rhs);
        assert(t.args =~= seq![lhs, rhs]);
        assert(t == SpecAst::binary(SpecAstty::Assign, lhs, rhs));
        lemma_occurs_split(ts, i, left + seq![SpecToken::Assign], right);
        lemma_occurs_split(ts, i, left, seq![SpecToken::Assign]);
        lemma_occurs_token(ts, i + left.len(), SpecToken::Assign);
        lemma_expression_round_trip(ts, i, lhs);
        lemma_assign_round_trip(ts, i + left.len() + 1, rhs);
    } else {
        lemma_expression_round_trip(ts, i, t);
    }
}

/// A statement tree, printed with the fewest parentheses and closed by `;`,
/// parses as a program of that one tree.
pub proof fn lemma_statement_round_trip(t: SpecAst)
    requires
        is_statement(t),
    ensures
        parse_program(print_statement(t) + seq![SpecToken::Semicolon, SpecToken::Eof], 0) == Ok::<
            Seq<SpecAst>,
            SpecParseError,
        >(seq![t]),
{
    let p = print_statement(t);
    let ts = p + seq![SpecToken::Semicolon, SpecToken::Eof];
    assert(occurs_at(ts, 0, p));
    assert(token_at(ts, p.len() as int) is Semicolon);
    lemma_assign_round_trip(ts, 0, t);
    assert(parse_statement(ts, 0) == Ok::<(SpecAst, nat), SpecParseError>((t, p.len() + 1)));
    assert(parse_program(ts, p.len() as int + 1) == Ok::<Seq<SpecAst>, SpecParseError>(
        Seq::empty(),
    ));
    assert(seq![t] + Seq::<SpecAst>::empty() =~= seq![t]);
}

/// Each tree of a parsed program, printed with the fewest parentheses and
/// parsed again, is the same tree.
pub proof fn lemma_reparse(ts: Seq<SpecToken>, k: int)
    requires
        parse_program(ts, 0) matches Ok(trees) && 0 <= k < trees.len(),
    ensures
        parse_program(ts, 0) matches Ok(trees) && parse_program(
            print_statement(trees[k]) + seq![SpecToken::Semicolon, SpecToken::Eof],
            0,
        ) == Ok::<Seq<SpecAst>, SpecParseError>(seq![trees[k]]),
{
    lemma_program_shape(ts, 0);
    lemma_statement_round_trip(parse_program(ts, 0)->Ok_0[k]);
}

/// The tokens of `p` that are no parentheses, in order.
pub open spec fn without_parens(p: Seq<SpecToken>) -> Seq<SpecToken>
    decreases p.len(),
{
    if p.len() == 0 {
        Seq::empty()
    } else if p.last() is ParL || p.last() is ParR {
        without_parens(p.drop_last())
    } else {
        without_parens(p.drop_last()).push(p.last())
    }
}

/// The numbers and operators of a tree from left to right.
pub open spec fn flat(t: SpecAst) -> Seq<SpecToken>
    decreases t,
{
    match t.ty {
        SpecAstty::Num(n) => seq![SpecToken::Num(n)],
        SpecAstty::Id(name) => seq![SpecToken::Id(name)],
        SpecAstty::Eof => Seq::empty(),
        _ => if t.args.len() == 2 {
            flat(t.args[0]) + seq![op_token(t.ty)] + flat(t.args[1])
        } else {
            Seq::empty()
        },
    }
}

/// Parentheses are removed from two joined stretches piece by piece.
pub proof fn lemma_without_parens_concat(a: Seq<SpecToken>, b: Seq<SpecToken>)
    ensures
        without_parens(a + b) == without_parens(a) + without_parens(b),
    decreases b.len(),
{
    if b.len() == 0 {
        assert(a + b =~= a);
        assert(without_parens(a) + without_parens(b) =~= without_parens(a));
    } else {
        assert((a + b).drop_last() =~= a + b.drop_last());
        lemma_without_parens_concat(a, b.drop_last());
        if !(b.last() is ParL || b.last() is ParR) {
            assert(without_parens(a + b) =~= without_parens(a) + without_parens(b));
        }
    }
}

/// A single token stays, unless it is a parenthesis.
proof fn lemma_without_parens_one(t: SpecToken)
    ensures
        without_parens(seq![t]) == if t is ParL || t is ParR {
            Seq::<SpecToken>::empty()
        } else {
            seq![t]
        },
{
    assert(seq![t].drop_last() =~= Seq::<SpecToken>::empty());
    assert(without_parens(Seq::<SpecToken>::empty()) =~= Seq::<SpecToken>::empty());
    assert(Seq::<SpecToken>::empty().push(t) =~= seq![t]);
}

/// Without its parentheses, a printed expression is the numbers and
/// operators of the tree.
pub proof fn lemma_print_flat(t: SpecAst, level: nat)
    requires
        is_expression(t),
    ensures
        without_parens(print(t, level)) == flat(t),
    decreases t,
{
    if t.ty is Num {
        lemma_without_parens_one(SpecToken::Num(t.ty->Num_0));
    } else {
        let own = level_of(t.ty);
        let left = print(t.args[0], own);
        let right = print(t.args[1], own + 1);
        let op = seq![op_token(t.ty)];
        lemma_print_flat(t.args[0], own);
        lemma_print_flat(t.args[1], own + 1);
        lemma_without_parens_one(op_token(t.ty));
        lemma_without_parens_concat(left + op, right);
        lemma_without_parens_concat(left, op);
        if own < level {
            let open = seq![SpecToken::ParL];
            let close = seq![SpecToken::ParR];
            lemma_without_parens_one(SpecToken::ParL);
            lemma_without_parens_one(SpecToken::ParR);
            lemma_without_parens_concat(open + (left + op + right), close);
            lemma_without_parens_concat(open, left + op + right);
            assert(Seq::<SpecToken>::empty() + flat(t) + Seq::<SpecToken>::empty() =~= flat(t));
        }
    }
}

/// Without its parentheses, a printed statement is the numbers and
/// operators of the tree.
pub proof fn lemma_print_statement_flat(t: SpecAst)
    requires
        is_statement(t),
    ensures
        without_parens(print_statement(t)) == flat(t),
    decreases t,
{
    if t.ty is Assign {
        let left = print(t.args[0], 0);
        let right = print_statement(t.args[1]);
        let op = seq![SpecToken::Assign];
        lemma_print_flat(t.args[0], 0);
        lemma_print_statement_flat(t.args[1]);
        lemma_without_parens_one(SpecToken::Assign);
        lemma_without_parens_concat(left + op, right);
        lemma_without_parens_concat(left, op);
    } else {
        lemma_print_flat(t, 0);
    }
}

/// The tokens that a term took are, without their parentheses, the numbers
/// and operators of its tree.
pub proof fn lemma_term_flat(ts: Seq<SpecToken>, i: int)
    requires
        0 <= i <= ts.len(),
    ensures
        parse_term(ts, i) matches Ok((t, n)) ==> i + n <= ts.len() && without_parens(
            ts.subrange(i, i + n),
        ) == flat(t),
    decreases tokens_left(ts, i), 0nat,
{
    match token_at(ts, i) {
        SpecToken::Eof => {
            assert(without_parens(ts.subrange(i, i)) =~= Seq::<SpecToken>::empty());
        },
        SpecToken::Num(n) => {
            assert(ts.subrange(i, i + 1) =~= seq![SpecToken::Num(n)]);
            lemma_without_parens_one(SpecToken::Num(n));
        },
        SpecToken::ParL => {
            lemma_add_flat(ts, i + 1);
            if let Ok((t, n)) = parse_add(ts, i + 1) {
                if token_at(ts, i + 1 + n) is ParR {
                    let open = seq![SpecToken::ParL];
                    let close = seq![SpecToken::ParR];
                    let inner = ts.subrange(i + 1, i + 1 + n);
                    assert(ts.subrange(i, i + n + 2) =~= open + inner + close);
                    lemma_without_parens_one(SpecToken::ParL);
                    lemma_without_parens_one(SpecToken::ParR);
                    lemma_without_parens_concat(open + inner, close);
                    lemma_without_parens_concat(open, inner);
                    assert(Seq::<SpecToken>::empty() + flat(t) + Seq::<SpecToken>::empty() =~= flat(
                        t,
                    ));
                }
            }
        },
        _ => {},
    }
}

/// The tokens that the rest of a product took.
pub proof fn lemma_mul_rest_flat(ts: Seq<SpecToken>, lhs: SpecAst, i: int)
    requires
        0 <= i <= ts.len(),
    ensures
        mul_rest(ts, lhs, i) matches Ok((t, n)) ==> i + n <= ts.len() && flat(t) == flat(lhs)
            + without_parens(ts.subrange(i, i + n)),
    decreases tokens_left(ts, i), 1nat,
{
    match mul_op(token_at(ts, i)) {
        None => {
            assert(without_parens(ts.subrange(i, i)) =~= Seq::<SpecToken>::empty());
            assert(flat(lhs) + Seq::<SpecToken>::empty() =~= flat(lhs));
        },
        Some(op) => {
            lemma_term_flat(ts, i + 1);
            if let Ok((rhs, n)) = parse_term(ts, i + 1) {
                let node = SpecAst::binary(op, lhs, rhs);
                lemma_mul_rest_flat(ts, node, i + 1 + n);
                if let Ok((t, m)) = mul_rest(ts, node, i + 1 + n) {
                    lemma_step_flat(ts, i, n, m);
                    assert(flat(node) == flat(lhs) + seq![ts[i]] + flat(rhs));
                    assert(flat(t) =~= flat(lhs) + without_parens(ts.subrange(i, i + 1 + n + m)));
                }
            }
        },
    }
}

/// The tokens of an operator, its right operand and what follows, without
/// parentheses.
proof fn lemma_step_flat(ts: Seq<SpecToken>, i: int, n: nat, m: nat)
    requires
        0 <= i < ts.len(),
        i + 1 + n + m <= ts.len(),
        !(ts[i] is ParL || ts[i] is ParR),
    ensures
        without_parens(ts.subrange(i, i + 1 + n + m)) == seq![ts[i]] + without_parens(
            ts.subrange(i + 1, i + 1 + n),
        ) + without_parens(ts.subrange(i + 1 + n, i + 1 + n + m)),
{
    let op = seq![ts[i]];
    let operand = ts.subrange(i + 1, i + 1 + n);
    let rest = ts.subrange(i + 1 + n, i + 1 + n + m);
    assert(ts.subrange(i, i + 1 + n + m) =~= op + operand + rest);
    lemma_without_parens_one(ts[i]);
    lemma_without_parens_concat(op + operand, rest);
    lemma_without_parens_concat(op, operand);
}

/// Two stretches of tokens side by side, without parentheses.
proof fn lemma_join_flat(ts: Seq<SpecToken>, i: int, n: nat, m: nat)
    requires
        0 <= i,
        i + n + m <= ts.len(),
    ensures
        without_parens(ts.subrange(i, i + n + m)) == without_parens(ts.subrange(i, i + n))
            + without_parens(ts.subrange(i + n, i + n + m)),
{
    assert(ts.subrange(i, i + n + m) =~= ts.subrange(i, i + n) + ts.subrange(i + n, i + n + m));
    lemma_without_parens_concat(ts.subrange(i, i + n), ts.subrange(i + n, i + n + m));
}

/// The tokens that a product took.
pub proof fn lemma_mul_flat(ts: Seq<SpecToken>, i: int)
    requires
        0 <= i <= ts.len(),
    ensures
        parse_mul(ts, i) matches Ok((t, n)) ==> i + n <= ts.len() && without_parens(
            ts.subrange(i, i + n),
        ) == flat(t),
    decreases tokens_left(ts, i), 2nat,
{
    lemma_term_flat(ts, i);
    if let Ok((lhs, n)) = parse_term(ts, i) {
        lemma_mul_rest_flat(ts, lhs, i + n);
        if let Ok((t, m)) = mul_rest(ts, lhs, i + n) {
            lemma_join_flat(ts, i, n, m);
        }
    }
}

/// The tokens that the rest of a sum took.
pub proof fn lemma_add_rest_flat(ts: Seq<SpecToken>, lhs: SpecAst, i: int)
    requires
        0 <= i <= ts.len(),
    ensures
        add_rest(ts, lhs, i) matches Ok((t, n)) ==> i + n <= ts.len() && flat(t) == flat(lhs)
            + without_parens(ts.subrange(i, i + n)),
    decreases tokens_left(ts, i), 3nat,
{
    match add_op(token_at(ts, i)) {
        None => {
            assert(without_parens(ts.subrange(i, i)) =~= Seq::<SpecToken>::empty());
            assert(flat(lhs) + Seq::<SpecToken>::empty() =~= flat(lhs));
        },
        Some(op) => {
            lemma_mul_flat(ts, i + 1);
            if let Ok((rhs, n)) = parse_mul(ts, i + 1) {
                let node = SpecAst::binary(op, lhs, rhs);
                lemma_add_rest_flat(ts, node, i + 1 + n);
                if let Ok((t, m)) = add_rest(ts, node, i + 1 + n) {
                    lemma_step_flat(ts, i, n, m);
                    assert(flat(node) == flat(lhs) + seq![ts[i]] + flat(rhs));
                    assert(flat(t) =~= flat(lhs) + without_parens(ts.subrange(i, i + 1 + n + m)));
                }
            }
        },
    }
}

/// The tokens that a sum took.
pub proof fn lemma_add_flat(ts: Seq<SpecToken>, i: int)
    requires
        0 <= i <= ts.len(),
    ensures
        parse_add(ts, i) matches Ok((t, n)) ==> i + n <= ts.len() && without_parens(
            ts.subrange(i, i + n),
        ) == flat(t),
    decreases tokens_left(ts, i), 4nat,
{
    lemma_mul_flat(ts, i);
    if let Ok((lhs, n)) = parse_mul(ts, i) {
        lemma_add_rest_flat(ts, lhs, i + n);
        if let Ok((t, m)) = add_rest(ts, lhs, i + n) {
            lemma_join_flat(ts, i, n, m);
        }
    }
}

/// The tokens that an assignment expression took.
pub proof fn lemma_assign_flat(ts: Seq<SpecToken>, i: int)
    requires
        0 <= i <= ts.len(),
    ensures
        parse_assign(ts, i) matches Ok((t, n)) ==> i + n <= ts.len() && without_parens(
            ts.subrange(i, i + n),
        ) == flat(t),
    decreases tokens_left(ts, i),
{
    lemma_add_flat(ts, i);
    if let Ok((lhs, n)) = parse_add(ts, i) {
        if token_at(ts, i + n) is Assign {
            lemma_assign_flat(ts, i + n + 1);
            if let Ok((rhs, m)) = parse_assign(ts, i + n + 1) {
                lemma_step_flat(ts, i + n, 0, m);
                assert(ts.subrange(i + n + 1, i + n + 1) =~= Seq::<SpecToken>::empty());
                lemma_join_flat(ts, i, n, 1 + m);
                let t = SpecAst::binary(SpecAstty::Assign, lhs, rhs);
                assert(flat(t) == flat(lhs) + seq![SpecToken::Assign] + flat(rhs));
                assert(flat(t) =~= without_parens(ts.subrange(i, i + n + 1 + m)));
            }
        }
    }
}

/// Printing removes parentheses and nothing else: the tokens of a parsed
/// statement and the tokens of its printed tree are the same but for their
/// parentheses.
pub proof fn lemma_print_keeps_tokens(ts: Seq<SpecToken>, i: int)
    requires
        0 <= i <= ts.len(),
    ensures
        parse_statement(ts, i) matches Ok((t, n)) ==> i + n <= ts.len() && without_parens(
            ts.subrange(i, i + n),
        ) == without_parens(print_statement(t) + seq![SpecToken::Semicolon]),
{
    lemma_assign_flat(ts, i);
    lemma_statement_shape(ts, i);
    if let Ok((t, n)) = parse_statement(ts, i) {
        let m = (n - 1) as nat;
        let end = seq![SpecToken::Semicolon];
        lemma_print_statement_flat(t);
        lemma_without_parens_concat(print_statement(t), end);
        assert(ts.subrange(i + m, i + m + 1) =~= end);
        lemma_join_flat(ts, i, m, 1);
    }
}

} // verus!
