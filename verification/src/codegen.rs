//! The code generator: a postorder walk of the tree that emits code for a
//! stack machine on x86-64, and the assembly text of that code.

use crate::ast::{code_values, is_expression, Ast, Astty, Code, SpecAst, SpecAstty};
use crate::text::{decimal, push_decimal};
use vstd::prelude::*;

verus! {

/// An instruction of the generated code. `rax` is the primary accumulator,
/// `rdi` the secondary one and `rdx` the remainder register.
#[derive(Clone, Copy, PartialEq, Eq, Debug, Structural)]
pub enum Instr {
    /// `push n`
    PushImm(usize),
    /// `push rax`
    PushRax,
    /// `pop rax`
    PopRax,
    /// `pop rdi`
    PopRdi,
    /// `add rax, rdi`
    Add,
    /// `sub rax, rdi`
    Sub,
    /// `mul rdi`
    Mul,
    /// `mov rdx, 0`
    ZeroRdx,
    /// `div rdi`
    Div,
    /// `mov rax, rdx`
    MovRaxRdx,
    /// `ret`
    Ret,
}

/// A kind of tree node that is recognised but has no code.
#[derive(Clone, Copy, PartialEq, Eq, Debug, Structural)]
pub enum Feature {
    Identifier,
    Assignment,
}

/// Why no code was generated.
#[derive(Clone, Copy, PartialEq, Eq, Debug, Structural)]
pub enum CodegenError {
    /// The tree holds a node of a kind that has no code.
    UnsupportedFeature(Feature),
    /// The program has no statement, so there is no value to return.
    EmptyProgram,
}

impl Feature {
    /// The name of the feature, for diagnostics.
    pub fn name(self) -> (s: &'static str)
        ensures
            s@ == match self {
                Feature::Identifier => "identifier"@,
                Feature::Assignment => "assignment"@,
            },
    {
        match self {
            Feature::Identifier => "identifier",
            Feature::Assignment => "assignment",
        }
    }
}

/// What a node emits once its operands lie on the stack and, for a node with
/// two operands, have been popped: left into `rax`, right into `rdi`.
/// An operator leaves its result in `rax` and pushes it. Modulo takes the
/// remainder, which the division leaves in `rdx`.
pub open spec fn own_code(ty: SpecAstty) -> Result<Seq<Instr>, CodegenError> {
    match ty {
        SpecAstty::Num(n) => Ok(seq![Instr::PushImm(n)]),
        SpecAstty::Id(_) => Err(CodegenError::UnsupportedFeature(Feature::Identifier)),
        SpecAstty::Add => Ok(seq![Instr::Add, Instr::PushRax]),
        SpecAstty::Sub => Ok(seq![Instr::Sub, Instr::PushRax]),
        SpecAstty::Mul => Ok(seq![Instr::Mul, Instr::PushRax]),
        SpecAstty::Div => Ok(seq![Instr::ZeroRdx, Instr::Div, Instr::PushRax]),
        SpecAstty::Mod => Ok(seq![Instr::ZeroRdx, Instr::Div, Instr::MovRaxRdx, Instr::PushRax]),
        SpecAstty::Assign => Err(CodegenError::UnsupportedFeature(Feature::Assignment)),
        SpecAstty::Eof => Ok(Seq::empty()),
    }
}

/// The pops between the operands' code and the node's own: the right operand
/// comes off the stack first.
pub open spec fn operand_pops(arity: nat) -> Seq<Instr> {
    if arity == 2 {
        seq![Instr::PopRdi, Instr::PopRax]
    } else {
        Seq::empty()
    }
}

/// The code of a tree: the code of its children from left to right, the pops,
/// then the node's own code. The first node in this order that has no code
/// decides the error.
pub open spec fn tree_code(ast: SpecAst) -> Result<Seq<Instr>, CodegenError>
    decreases ast,
{
    match forest_code(ast.args) {
        Err(e) => Err(e),
        Ok(operands) => match own_code(ast.ty) {
            Err(e) => Err(e),
            Ok(own) => Ok(operands + operand_pops(ast.args.len()) + own),
        },
    }
}

/// The code of a sequence of trees, one after the other.
pub open spec fn forest_code(trees: Seq<SpecAst>) -> Result<Seq<Instr>, CodegenError>
    decreases trees,
{
    if trees.len() == 0 {
        Ok(Seq::empty())
    } else {
        match forest_code(trees.drop_last()) {
            Err(e) => Err(e),
            Ok(before) => match tree_code(trees.last()) {
                Err(e) => Err(e),
                Ok(last) => Ok(before + last),
            },
        }
    }
}

/// The code of the statements of a program: that of its last statement
/// alone, which leaves the statement's value on the stack. Earlier
/// statements have no code, and a program without statement has none.
pub open spec fn statements_code(trees: Seq<SpecAst>) -> Result<Seq<Instr>, CodegenError> {
    if trees.len() == 0 {
        Err(CodegenError::EmptyProgram)
    } else {
        tree_code(trees.last())
    }
}

/// The code of a whole program: that of its statements, whose value is then
/// popped into `rax` and returned.
pub open spec fn program_code(trees: Seq<SpecAst>) -> Result<Seq<Instr>, CodegenError> {
    match statements_code(trees) {
        Err(e) => Err(e),
        Ok(body) => Ok(body + seq![Instr::PopRax, Instr::Ret]),
    }
}

/// Appends the code of `ast` to `out`. Where the tree has a node without
/// code, `out` is left as it was.
pub fn gen(ast: &Ast, out: &mut Vec<Instr>) -> (r: Result<(), CodegenError>)
    ensures
        match tree_code(ast@) {
            Ok(code) => r is Ok && final(out)@ == old(out)@ + code,
            Err(e) => r == Err::<(), CodegenError>(e) && final(out)@ == old(out)@,
        },
    decreases ast,
{
    let start = out.len();
    let ghost args = ast@.args;
    let ghost mut operands: Seq<Instr> = Seq::empty();
    let mut i: usize = 0;
    while i < ast.args.len()
        invariant
            i <= ast.args.len(),
            start == old(out)@.len(),
            args == ast@.args,
            args.len() == ast.args.len(),
            forest_code(args.subrange(0, i as int)) == Ok::<Seq<Instr>, CodegenError>(operands),
            out@ == old(out)@ + operands,
        decreases ast.args.len() - i,
    {
        proof {
            assert(args.subrange(0, i + 1).drop_last() == args.subrange(0, i as int));
            assert(args.subrange(0, i + 1).last() == ast.args[i as int]@);
            lemma_forest_code_prefix(args, i + 1);
        }
        match gen(&ast.args[i], out) {
            Ok(()) => {},
            Err(e) => {
                out.truncate(start);
                assert(out@ =~= old(out)@);
                return Err(e);
            },
        }
        proof {
            let code = tree_code(ast.args[i as int]@).unwrap();
            assert(out@ == old(out)@ + (operands + code));
            operands = operands + code;
        }
        i += 1;
    }
    assert(args.subrange(0, i as int) == args);
    if ast.args.len() == 2 {
        out.push(Instr::PopRdi);
        out.push(Instr::PopRax);
    }
    assert(out@ == old(out)@ + (operands + operand_pops(args.len())));
    match &ast.ty {
        Astty::Num(n) => {
            out.push(Instr::PushImm(*n));
        },
        Astty::Id(_) => {
            out.truncate(start);
            assert(out@ =~= old(out)@);
            return Err(CodegenError::UnsupportedFeature(Feature::Identifier));
        },
        Astty::Add => {
            out.push(Instr::Add);
            out.push(Instr::PushRax);
        },
        Astty::Sub => {
            out.push(Instr::Sub);
            out.push(Instr::PushRax);
        },
        Astty::Mul => {
            out.push(Instr::Mul);
            out.push(Instr::PushRax);
        },
        Astty::Div => {
            out.push(Instr::ZeroRdx);
            out.push(Instr::Div);
            out.push(Instr::PushRax);
        },
        Astty::Mod => {
            out.push(Instr::ZeroRdx);
            out.push(Instr::Div);
            out.push(Instr::MovRaxRdx);
            out.push(Instr::PushRax);
        },
        Astty::Assign => {
            out.truncate(start);
            assert(out@ =~= old(out)@);
            return Err(CodegenError::UnsupportedFeature(Feature::Assignment));
        },
        Astty::Eof => {},
    }
    assert(out@ == old(out)@ + (operands + operand_pops(args.len()) + own_code(
        ast@.ty,
    ).unwrap()));
    Ok(())
}

/// Where the code of a sequence of trees fails, the code of each longer
/// sequence that begins with it fails in the same way.
proof fn lemma_forest_code_prefix(trees: Seq<SpecAst>, n: int)
    requires
        0 <= n <= trees.len(),
    ensures
        forest_code(trees.subrange(0, n)) matches Err(e) ==> forest_code(trees) == Err::<
            Seq<Instr>,
            CodegenError,
        >(e),
    decreases trees.len(),
{
    if n < trees.len() {
        assert(trees.drop_last().subrange(0, n) == trees.subrange(0, n));
        lemma_forest_code_prefix(trees.drop_last(), n);
    } else {
        assert(trees.subrange(0, n) == trees);
    }
}

/// The code of a node over two operands is the code of the left one, that of
/// the right one, the two pops and the node's own code.
pub proof fn lemma_binary_code(t: SpecAst)
    requires
        t.args.len() == 2,
    ensures
        tree_code(t) == match tree_code(t.args[0]) {
            Err(e) => Err(e),
            Ok(left) => match tree_code(t.args[1]) {
                Err(e) => Err(e),
                Ok(right) => match own_code(t.ty) {
                    Err(e) => Err(e),
                    Ok(own) => Ok(left + right + seq![Instr::PopRdi, Instr::PopRax] + own),
                },
            },
        },
{
    let first = t.args.drop_last();
    assert(first.len() == 1);
    assert(first.last() == t.args[0]);
    assert(t.args.last() == t.args[1]);
    assert(forest_code(first.drop_last()) == Ok::<Seq<Instr>, CodegenError>(Seq::empty()));
    assert(forest_code(first) == match tree_code(t.args[0]) {
        Err(e) => Err(e),
        Ok(left) => Ok(Seq::<Instr>::empty() + left),
    });
    if let Ok(left) = tree_code(t.args[0]) {
        assert(Seq::<Instr>::empty() + left =~= left);
    }
    assert(forest_code(t.args) == match forest_code(first) {
        Err(e) => Err(e),
        Ok(before) => match tree_code(t.args[1]) {
            Err(e) => Err(e),
            Ok(right) => Ok(before + right),
        },
    });
}

/// What an instruction does to the height of the evaluation stack.
pub open spec fn stack_delta(instr: Instr) -> int {
    match instr {
        Instr::PushImm(_) => 1,
        Instr::PushRax => 1,
        Instr::PopRax => -1,
        Instr::PopRdi => -1,
        _ => 0,
    }
}

/// The pushes of `code` less its pops.
pub open spec fn stack_height(code: Seq<Instr>) -> int
    decreases code.len(),
{
    if code.len() == 0 {
        0
    } else {
        stack_height(code.drop_last()) + stack_delta(code.last())
    }
}

/// From a stack of `base` values, `code` never pops more than there is: no
/// part of it from its beginning has over `base` pops more than pushes.
pub open spec fn never_below(code: Seq<Instr>, base: int) -> bool {
    forall|k: int| 0 <= k <= code.len() ==> base + #[trigger] stack_height(code.subrange(0, k)) >= 0
}

/// The height after two pieces of code is the sum of their heights.
pub proof fn lemma_height_concat(a: Seq<Instr>, b: Seq<Instr>)
    ensures
        stack_height(a + b) == stack_height(a) + stack_height(b),
    decreases b.len(),
{
    if b.len() == 0 {
        assert(a + b =~= a);
    } else {
        assert((a + b).drop_last() =~= a + b.drop_last());
        lemma_height_concat(a, b.drop_last());
    }
}

/// Code that does not pop too much, followed by code that does not pop too
/// much from where the first has left the stack, does not pop too much.
pub proof fn lemma_never_below_concat(a: Seq<Instr>, b: Seq<Instr>, base: int)
    requires
        never_below(a, base),
        never_below(b, base + stack_height(a)),
    ensures
        never_below(a + b, base),
{
    assert forall|k: int| 0 <= k <= (a + b).len() implies base + #[trigger] stack_height(
        (a + b).subrange(0, k),
    ) >= 0 by {
        if k <= a.len() {
            assert((a + b).subrange(0, k) =~= a.subrange(0, k));
        } else {
            let part = b.subrange(0, k - a.len());
            assert((a + b).subrange(0, k) =~= a + part);
            lemma_height_concat(a, part);
        }
    }
}

/// One more instruction that finds enough on the stack.
proof fn lemma_never_below_push(code: Seq<Instr>, instr: Instr, base: int)
    requires
        never_below(code, base),
        base + stack_height(code) + stack_delta(instr) >= 0,
    ensures
        never_below(code.push(instr), base),
        stack_height(code.push(instr)) == stack_height(code) + stack_delta(instr),
{
    let more = code.push(instr);
    assert(more.drop_last() =~= code);
    assert forall|k: int| 0 <= k <= more.len() implies base + #[trigger] stack_height(
        more.subrange(0, k),
    ) >= 0 by {
        if k <= code.len() {
            assert(more.subrange(0, k) =~= code.subrange(0, k));
        } else {
            assert(more.subrange(0, k) =~= more);
        }
    }
}

/// No code does not pop at all.
proof fn lemma_never_below_empty(base: int)
    requires
        base >= 0,
    ensures
        never_below(Seq::<Instr>::empty(), base),
        stack_height(Seq::<Instr>::empty()) == 0,
{
    assert forall|k: int| 0 <= k <= 0 implies base + #[trigger] stack_height(
        Seq::<Instr>::empty().subrange(0, k),
    ) >= 0 by {
        assert(Seq::<Instr>::empty().subrange(0, k) =~= Seq::<Instr>::empty());
    }
}

/// The two pops take two values and no more.
proof fn lemma_pops_stack()
    ensures
        stack_height(seq![Instr::PopRdi, Instr::PopRax]) == -2,
        never_below(seq![Instr::PopRdi, Instr::PopRax], 2),
{
    let none = Seq::<Instr>::empty();
    lemma_never_below_empty(2);
    lemma_never_below_push(none, Instr::PopRdi, 2);
    lemma_never_below_push(none.push(Instr::PopRdi), Instr::PopRax, 2);
    assert(seq![Instr::PopRdi, Instr::PopRax] =~= none.push(Instr::PopRdi).push(Instr::PopRax));
}

/// The own code of an operator pushes one value and pops none.
proof fn lemma_own_stack(op: SpecAstty)
    requires
        op.is_arith(),
    ensures
        own_code(op) matches Ok(own) && stack_height(own) == 1 && never_below(own, 0),
{
    let none = Seq::<Instr>::empty();
    let own = own_code(op)->Ok_0;
    lemma_never_below_empty(0);
    if op is Div || op is Mod {
        let c1 = none.push(Instr::ZeroRdx);
        let c2 = c1.push(Instr::Div);
        lemma_never_below_push(none, Instr::ZeroRdx, 0);
        lemma_never_below_push(c1, Instr::Div, 0);
        if op is Div {
            lemma_never_below_push(c2, Instr::PushRax, 0);
            assert(own =~= c2.push(Instr::PushRax));
        } else {
            let c3 = c2.push(Instr::MovRaxRdx);
            lemma_never_below_push(c2, Instr::MovRaxRdx, 0);
            lemma_never_below_push(c3, Instr::PushRax, 0);
            assert(own =~= c3.push(Instr::PushRax));
        }
    } else {
        let first = if op is Add {
            Instr::Add
        } else if op is Sub {
            Instr::Sub
        } else {
            Instr::Mul
        };
        lemma_never_below_push(none, first, 0);
        lemma_never_below_push(none.push(first), Instr::PushRax, 0);
        assert(own =~= none.push(first).push(Instr::PushRax));
    }
}

/// The code of an expression has one push more than it has pops, and no
/// part of it from its beginning has more pops than pushes: it leaves
/// exactly one value on the stack and takes none that it has not pushed.
pub proof fn lemma_expression_stack(t: SpecAst)
    requires
        is_expression(t),
    ensures
        tree_code(t) matches Ok(code) && stack_height(code) == 1 && never_below(code, 0),
    decreases t,
{
    let none = Seq::<Instr>::empty();
    if t.ty is Num {
        let n = t.ty->Num_0;
        assert(t.args =~= Seq::empty());
        assert(tree_code(t)->Ok_0 =~= none.push(Instr::PushImm(n)));
        lemma_never_below_empty(0);
        lemma_never_below_push(none, Instr::PushImm(n), 0);
    } else {
        lemma_binary_code(t);
        lemma_expression_stack(t.args[0]);
        lemma_expression_stack(t.args[1]);
        lemma_pops_stack();
        lemma_own_stack(t.ty);
        let left = tree_code(t.args[0])->Ok_0;
        let right = tree_code(t.args[1])->Ok_0;
        let pops = seq![Instr::PopRdi, Instr::PopRax];
        let own = own_code(t.ty)->Ok_0;
        assert(never_below(right, 1)) by {
            assert forall|k: int| 0 <= k <= right.len() implies 1 + #[trigger] stack_height(
                right.subrange(0, k),
            ) >= 0 by {}
        }
        lemma_height_concat(left, right);
        lemma_never_below_concat(left, right, 0);
        lemma_height_concat(left + right, pops);
        lemma_never_below_concat(left + right, pops, 0);
        lemma_height_concat(left + right + pops, own);
        lemma_never_below_concat(left + right + pops, own, 0);
    }
}

/// The code of the statements of a program: the code of its last tree and
/// nothing else. The pop and the return that end the program are not part
/// of it, so the code of an expression leaves one value on the stack.
pub fn gen_code(code: &Code) -> (r: Result<Vec<Instr>, CodegenError>)
    ensures
        match statements_code(code_values(code@)) {
            Ok(body) => r matches Ok(v) && v@ == body,
            Err(e) => r == Err::<Vec<Instr>, CodegenError>(e),
        },
        code@.len() >= 1 && is_expression(code@.last()@) ==> (r matches Ok(v) && stack_height(v@)
            == 1 && never_below(v@, 0)),
{
    if code.len() == 0 {
        return Err(CodegenError::EmptyProgram);
    }
    let mut out: Vec<Instr> = Vec::new();
    let last = &code[code.len() - 1];
    assert(code_values(code@).last() == last@);
    proof {
        if is_expression(last@) {
            lemma_expression_stack(last@);
        }
    }
    match gen(last, &mut out) {
        Ok(()) => {},
        Err(e) => {
            return Err(e);
        },
    }
    assert(out@ =~= tree_code(last@).unwrap());
    Ok(out)
}

/// The code of a whole program: the code of its statements, then the pop
/// of their value into `rax` and the return.
pub fn gen_program(code: &Code) -> (r: Result<Vec<Instr>, CodegenError>)
    ensures
        match program_code(code_values(code@)) {
            Ok(instrs) => r matches Ok(v) && v@ == instrs,
            Err(e) => r == Err::<Vec<Instr>, CodegenError>(e),
        },
{
    let mut out = match gen_code(code) {
        Ok(out) => out,
        Err(e) => {
            return Err(e);
        },
    };
    let ghost body = out@;
    out.push(Instr::PopRax);
    out.push(Instr::Ret);
    assert(out@ =~= body + seq![Instr::PopRax, Instr::Ret]);
    Ok(out)
}

/// The line of an instruction: a tab, the instruction in Intel syntax, a
/// line feed.
pub open spec fn instr_text(instr: Instr) -> Seq<char> {
    match instr {
        Instr::PushImm(n) => "\tpush "@ + decimal(n as nat) + "\n"@,
        Instr::PushRax => "\tpush rax\n"@,
        Instr::PopRax => "\tpop rax\n"@,
        Instr::PopRdi => "\tpop rdi\n"@,
        Instr::Add => "\tadd rax, rdi\n"@,
        Instr::Sub => "\tsub rax, rdi\n"@,
        Instr::Mul => "\tmul rdi\n"@,
        Instr::ZeroRdx => "\tmov rdx, 0\n"@,
        Instr::Div => "\tdiv rdi\n"@,
        Instr::MovRaxRdx => "\tmov rax, rdx\n"@,
        Instr::Ret => "\tret\n"@,
    }
}

/// The lines of a sequence of instructions, in order.
pub open spec fn body_text(code: Seq<Instr>) -> Seq<char>
    decreases code.len(),
{
    if code.len() == 0 {
        Seq::empty()
    } else {
        body_text(code.drop_last()) + instr_text(code.last())
    }
}

/// What stands before the instructions: the syntax directive, the
/// declaration of the entry symbol, a blank line and the entry label.
pub open spec fn header_text() -> Seq<char> {
    ".intel_syntax noprefix\n"@ + ".global _main\n\n"@ + "_main:\n"@
}

/// The assembly file of a sequence of instructions.
pub open spec fn assembly_text(code: Seq<Instr>) -> Seq<char> {
    header_text() + body_text(code)
}

/// Appends the line of `instr` to `out`.
pub fn push_instr(out: &mut String, instr: Instr)
    ensures
        final(out)@ == old(out)@ + instr_text(instr),
{
    match instr {
        Instr::PushImm(n) => {
            out.append("\tpush ");
            push_decimal(out, n);
            out.append("\n");
            assert(out@ == old(out)@ + ("\tpush "@ + decimal(n as nat) + "\n"@));
        },
        Instr::PushRax => out.append("\tpush rax\n"),
        Instr::PopRax => out.append("\tpop rax\n"),
        Instr::PopRdi => out.append("\tpop rdi\n"),
        Instr::Add => out.append("\tadd rax, rdi\n"),
        Instr::Sub => out.append("\tsub rax, rdi\n"),
        Instr::Mul => out.append("\tmul rdi\n"),
        Instr::ZeroRdx => out.append("\tmov rdx, 0\n"),
        Instr::Div => out.append("\tdiv rdi\n"),
        Instr::MovRaxRdx => out.append("\tmov rax, rdx\n"),
        Instr::Ret => out.append("\tret\n"),
    }
}

/// The assembly file of `code`.
pub fn emit(code: &Vec<Instr>) -> (s: String)
    ensures
        s@ == assembly_text(code@),
{
    let mut s = String::new();
    s.append(".intel_syntax noprefix\n");
    s.append(".global _main\n\n");
    s.append("_main:\n");
    assert(s@ == header_text());
    let mut i: usize = 0;
    while i < code.len()
        invariant
            i <= code.len(),
            s@ == header_text() + body_text(code@.subrange(0, i as int)),
        decreases code.len() - i,
    {
        assert(code@.subrange(0, i + 1).drop_last() == code@.subrange(0, i as int));
        push_instr(&mut s, code[i]);
        assert(s@ == header_text() + (body_text(code@.subrange(0, i as int)) + instr_text(
            code@[i as int],
        )));
        i += 1;
    }
    assert(code@.subrange(0, i as int) == code@);
    s
}

/// The assembly file of a program.
pub fn generate(code: &Code) -> (r: Result<String, CodegenError>)
    ensures
        match program_code(code_values(code@)) {
            Ok(instrs) => r matches Ok(s) && s@ == assembly_text(instrs),
            Err(e) => r == Err::<String, CodegenError>(e),
        },
{
    match gen_program(code) {
        Ok(instrs) => Ok(emit(&instrs)),
        Err(e) => Err(e),
    }
}

} // verus!
