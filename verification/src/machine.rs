//! What the generated code does when it runs: a model of the three
//! registers and the evaluation stack, the value of an expression, and the
//! proof that the code of an expression leaves that value.
//!
//! A division by zero is no error of the compiler. The program is
//! generated, and it faults when it runs.
//!
//! The model lets `push n` push `n` for every number. An x86-64 processor
//! takes an immediate of 32 bits for `push` and extends its sign, so for a
//! number from 2^31 on, what is proved here holds of the model and not of
//! the processor.

use crate::ast::{is_expression, SpecAst, SpecAstty};
use crate::codegen::{lemma_binary_code, own_code, program_code, tree_code, Instr};
use vstd::prelude::*;

verus! {

/// The registers and the evaluation stack, whose top is its last element.
/// The stack is empty where the generated function is entered.
pub struct State {
    pub rax: u64,
    pub rdi: u64,
    pub rdx: u64,
    pub stack: Seq<u64>,
}

/// How far a run has come.
pub enum Outcome {
    /// The next instruction can run, in this state.
    Running(State),
    /// The function has returned this value.
    Returned(u64),
    /// The machine has faulted: a division by zero or with a quotient that
    /// does not fit, a pop from the empty stack, or a return with values
    /// left on the stack.
    Fault,
}

/// The word that holds `x`: `x` modulo 2^64.
pub open spec fn wrap(x: int) -> u64 {
    (x % 0x1_0000_0000_0000_0000) as u64
}

/// One instruction.
pub open spec fn step(instr: Instr, s: State) -> Outcome {
    match instr {
        Instr::PushImm(n) => Outcome::Running(State { stack: s.stack.push(n as u64), ..s }),
        Instr::PushRax => Outcome::Running(State { stack: s.stack.push(s.rax), ..s }),
        Instr::PopRax => if s.stack.len() == 0 {
            Outcome::Fault
        } else {
            Outcome::Running(State { rax: s.stack.last(), stack: s.stack.drop_last(), ..s })
        },
        Instr::PopRdi => if s.stack.len() == 0 {
            Outcome::Fault
        } else {
            Outcome::Running(State { rdi: s.stack.last(), stack: s.stack.drop_last(), ..s })
        },
        Instr::Add => Outcome::Running(State { rax: wrap(s.rax + s.rdi), ..s }),
        Instr::Sub => Outcome::Running(State { rax: wrap(s.rax - s.rdi), ..s }),
        Instr::Mul => Outcome::Running(
            State {
                rax: wrap(s.rax * s.rdi),
                rdx: ((s.rax * s.rdi) / 0x1_0000_0000_0000_0000) as u64,
                ..s
            },
        ),
        Instr::ZeroRdx => Outcome::Running(State { rdx: 0, ..s }),
        Instr::Div => {
            let dividend = s.rdx * 0x1_0000_0000_0000_0000 + s.rax;
            if s.rdi == 0 || dividend / (s.rdi as int) > u64::MAX {
                Outcome::Fault
            } else {
                Outcome::Running(
                    State {
                        rax: (dividend / (s.rdi as int)) as u64,
                        rdx: (dividend % (s.rdi as int)) as u64,
                        ..s
                    },
                )
            }
        },
        Instr::MovRaxRdx => Outcome::Running(State { rax: s.rdx, ..s }),
        Instr::Ret => if s.stack.len() == 0 {
            Outcome::Returned(s.rax)
        } else {
            Outcome::Fault
        },
    }
}

/// One more instruction after `before`, if the machine is still running.
pub open spec fn then(before: Outcome, instr: Instr) -> Outcome {
    match before {
        Outcome::Running(t) => step(instr, t),
        done => done,
    }
}

/// The instructions of `code` in order, from state `s`, until one returns
/// or faults.
pub open spec fn exec(code: Seq<Instr>, s: State) -> Outcome
    decreases code.len(),
{
    if code.len() == 0 {
        Outcome::Running(s)
    } else {
        then(exec(code.drop_last(), s), code.last())
    }
}

/// The value that the code returns, if it returns.
pub open spec fn run(code: Seq<Instr>, s: State) -> Option<u64> {
    match exec(code, s) {
        Outcome::Returned(v) => Some(v),
        _ => None,
    }
}

/// The state in which `execute` starts.
pub open spec fn initial_state() -> State {
    State { rax: 0, rdi: 0, rdx: 0, stack: Seq::empty() }
}

/// The value of an operator on two words. Sums, differences and products
/// wrap; the quotient is truncated and the remainder completes it; a zero
/// divisor gives no value.
pub open spec fn apply(op: SpecAstty, a: u64, b: u64) -> Option<u64> {
    match op {
        SpecAstty::Add => Some(wrap(a + b)),
        SpecAstty::Sub => Some(wrap(a - b)),
        SpecAstty::Mul => Some(wrap(a * b)),
        SpecAstty::Div => if b == 0 {
            None
        } else {
            Some(a / b)
        },
        SpecAstty::Mod => if b == 0 {
            None
        } else {
            Some(a % b)
        },
        _ => None,
    }
}

/// The value of an expression: both operands are evaluated, then the
/// operator is applied. There is none where a divisor is zero.
pub open spec fn eval(t: SpecAst) -> Option<u64>
    decreases t,
{
    match t.ty {
        SpecAstty::Num(n) => Some(n as u64),
        _ => if t.args.len() == 2 {
            match (eval(t.args[0]), eval(t.args[1])) {
                (Some(a), Some(b)) => apply(t.ty, a, b),
                _ => None,
            }
        } else {
            None
        },
    }
}

/// Code that has returned or faulted does so whatever follows it, and code
/// that has not goes on from where it stands.
pub proof fn lemma_exec_concat(a: Seq<Instr>, b: Seq<Instr>, s: State)
    ensures
        exec(a + b, s) == match exec(a, s) {
            Outcome::Running(t) => exec(b, t),
            done => done,
        },
    decreases b.len(),
{
    if b.len() == 0 {
        assert(a + b =~= a);
    } else {
        assert((a + b).drop_last() =~= a + b.drop_last());
        lemma_exec_concat(a, b.drop_last(), s);
    }
}

/// Running one more instruction.
proof fn lemma_exec_push(code: Seq<Instr>, instr: Instr, s: State)
    ensures
        exec(code.push(instr), s) == then(exec(code, s), instr),
{
    assert(code.push(instr).drop_last() =~= code);
}

/// Running two instructions.
proof fn lemma_exec_two(a: Instr, b: Instr, s: State)
    ensures
        exec(seq![a, b], s) == then(step(a, s), b),
{
    let none = Seq::<Instr>::empty();
    assert(seq![a, b] =~= none.push(a).push(b));
    lemma_exec_push(none, a, s);
    lemma_exec_push(none.push(a), b, s);
}

/// Running three instructions.
proof fn lemma_exec_three(a: Instr, b: Instr, c: Instr, s: State)
    ensures
        exec(seq![a, b, c], s) == then(then(step(a, s), b), c),
{
    assert(seq![a, b, c] =~= seq![a, b].push(c));
    lemma_exec_two(a, b, s);
    lemma_exec_push(seq![a, b], c, s);
}

/// Running four instructions.
proof fn lemma_exec_four(a: Instr, b: Instr, c: Instr, d: Instr, s: State)
    ensures
        exec(seq![a, b, c, d], s) == then(then(then(step(a, s), b), c), d),
{
    assert(seq![a, b, c, d] =~= seq![a, b, c].push(d));
    lemma_exec_three(a, b, c, s);
    lemma_exec_push(seq![a, b, c], d, s);
}

/// Sum, difference and product: the operation, then the push.
proof fn lemma_wrapping_code(op: SpecAstty, s: State)
    requires
        op is Add || op is Sub || op is Mul,
    ensures
        own_code(op) matches Ok(own) && apply(op, s.rax, s.rdi) matches Some(v) && exec(own, s)
            matches Outcome::Running(t) && t.stack == s.stack.push(v),
{
    if op is Add {
        lemma_exec_two(Instr::Add, Instr::PushRax, s);
    } else if op is Sub {
        lemma_exec_two(Instr::Sub, Instr::PushRax, s);
    } else {
        lemma_exec_two(Instr::Mul, Instr::PushRax, s);
    }
}

/// Quotient and remainder: `rdx` is cleared, so the dividend is `rax`; a
/// zero divisor faults.
proof fn lemma_division_code(op: SpecAstty, s: State)
    requires
        op is Div || op is Mod,
    ensures
        own_code(op) matches Ok(own) && match apply(op, s.rax, s.rdi) {
            Some(v) => exec(own, s) matches Outcome::Running(t) && t.stack == s.stack.push(v),
            None => exec(own, s) is Fault,
        },
{
    let cleared = State { rdx: 0, ..s };
    assert(step(Instr::ZeroRdx, s) == Outcome::Running(cleared));
    if s.rdi != 0 {
        let a = s.rax as int;
        let b = s.rdi as int;
        assert(0 <= a / b <= a) by (nonlinear_arith)
            requires
                0 <= a,
                0 < b,
        ;
        assert(0 <= a % b < b) by (nonlinear_arith)
            requires
                0 <= a,
                0 < b,
        ;
        let divided = State { rax: (a / b) as u64, rdx: (a % b) as u64, ..cleared };
        assert(step(Instr::Div, cleared) == Outcome::Running(divided));
    } else {
        assert(step(Instr::Div, cleared) is Fault);
    }
    if op is Div {
        lemma_exec_three(Instr::ZeroRdx, Instr::Div, Instr::PushRax, s);
    } else {
        lemma_exec_four(Instr::ZeroRdx, Instr::Div, Instr::MovRaxRdx, Instr::PushRax, s);
    }
}

/// The own code of an operator, run with the left operand in `rax` and the
/// right one in `rdi`, pushes the operator's value, or faults where there is
/// none.
proof fn lemma_own_code(op: SpecAstty, s: State)
    requires
        op.is_arith(),
    ensures
        own_code(op) matches Ok(own) && match apply(op, s.rax, s.rdi) {
            Some(v) => exec(own, s) matches Outcome::Running(t) && t.stack == s.stack.push(v),
            None => exec(own, s) is Fault,
        },
{
    if op is Div || op is Mod {
        lemma_division_code(op, s);
    } else {
        lemma_wrapping_code(op, s);
    }
}

/// The two pops take the right operand into `rdi` and the left one into
/// `rax`.
proof fn lemma_pops(s: State, a: u64, b: u64) -> (t: State)
    ensures
        exec(seq![Instr::PopRdi, Instr::PopRax], State { stack: s.stack.push(a).push(b), ..s })
            == Outcome::Running(t),
        t.rax == a,
        t.rdi == b,
        t.stack == s.stack,
{
    let from = State { stack: s.stack.push(a).push(b), ..s };
    lemma_exec_two(Instr::PopRdi, Instr::PopRax, from);
    assert(from.stack.drop_last() =~= s.stack.push(a));
    assert(s.stack.push(a).drop_last() =~= s.stack);
    State { rax: a, rdi: b, rdx: s.rdx, stack: s.stack }
}

/// The code of a node over two operands, where the code of each operand
/// pushes that operand's value: it pushes the operator's value, or faults
/// where there is none.
proof fn lemma_binary_exec(
    left: Seq<Instr>,
    right: Seq<Instr>,
    op: SpecAstty,
    s: State,
    s1: State,
    s2: State,
    a: u64,
    b: u64,
)
    requires
        op.is_arith(),
        exec(left, s) == Outcome::Running(s1),
        exec(right, s1) == Outcome::Running(s2),
        s1.stack == s.stack.push(a),
        s2.stack == s1.stack.push(b),
    ensures
        own_code(op) matches Ok(own) && match apply(op, a, b) {
            Some(v) => exec(left + right + seq![Instr::PopRdi, Instr::PopRax] + own, s)
                matches Outcome::Running(t) && t.stack == s.stack.push(v),
            None => exec(left + right + seq![Instr::PopRdi, Instr::PopRax] + own, s) is Fault,
        },
{
    let pops = seq![Instr::PopRdi, Instr::PopRax];
    let own = own_code(op).unwrap();
    lemma_exec_concat(left + right + pops, own, s);
    lemma_exec_concat(left + right, pops, s);
    lemma_exec_concat(left, right, s);
    let s3 = lemma_pops(State { stack: s.stack, ..s2 }, a, b);
    assert(s2 == State { stack: s.stack.push(a).push(b), ..s2 });
    lemma_own_code(op, s3);
}

/// Where the code of an operand faults, so does the code of the node.
proof fn lemma_binary_fault(left: Seq<Instr>, right: Seq<Instr>, rest: Seq<Instr>, s: State)
    requires
        exec(left, s) is Fault || (exec(left, s) matches Outcome::Running(s1) && exec(right, s1)
            is Fault),
    ensures
        exec(left + right + rest, s) is Fault,
{
    lemma_exec_concat(left + right, rest, s);
    lemma_exec_concat(left, right, s);
}

/// The code of an expression pushes the value of the expression and leaves
/// the rest of the stack as it was; where the expression has no value, the
/// code faults.
pub proof fn lemma_expression_code(t: SpecAst, s: State)
    requires
        is_expression(t),
    ensures
        tree_code(t) matches Ok(code) && match eval(t) {
            Some(v) => exec(code, s) matches Outcome::Running(after) && after.stack
                == s.stack.push(v),
            None => exec(code, s) is Fault,
        },
    decreases t,
{
    if t.ty is Num {
        let n = t.ty->Num_0;
        assert(t.args =~= Seq::empty());
        let code = Seq::<Instr>::empty().push(Instr::PushImm(n));
        assert(tree_code(t).unwrap() =~= code);
        lemma_exec_push(Seq::empty(), Instr::PushImm(n), s);
    } else {
        let lhs = t.args[0];
        let rhs = t.args[1];
        lemma_binary_code(t);
        lemma_expression_code(lhs, s);
        let left = tree_code(lhs).unwrap();
        let pops = seq![Instr::PopRdi, Instr::PopRax];
        match exec(left, s) {
            Outcome::Running(s1) => {
                lemma_expression_code(rhs, s1);
                let right = tree_code(rhs).unwrap();
                let own = own_code(t.ty).unwrap();
                assert(tree_code(t).unwrap() == left + right + pops + own);
                match exec(right, s1) {
                    Outcome::Running(s2) => {
                        lemma_binary_exec(
                            left,
                            right,
                            t.ty,
                            s,
                            s1,
                            s2,
                            eval(lhs).unwrap(),
                            eval(rhs).unwrap(),
                        );
                    },
                    _ => {
                        lemma_binary_fault(left, right, pops + own, s);
                        assert(left + right + (pops + own) =~= left + right + pops + own);
                    },
                }
            },
            _ => {
                lemma_expression_code(rhs, s);
                let right = tree_code(rhs).unwrap();
                let own = own_code(t.ty).unwrap();
                assert(tree_code(t).unwrap() == left + right + pops + own);
                lemma_binary_fault(left, right, pops + own, s);
                assert(left + right + (pops + own) =~= left + right + pops + own);
            },
        }
    }
}

/// The generated program returns the value of its last statement, from
/// whatever the registers held at entry; where that statement has no value,
/// the program faults. Just before the final pop, the evaluation stack holds
/// that value and nothing else.
pub proof fn lemma_program_returns_value(trees: Seq<SpecAst>, s: State)
    requires
        trees.len() > 0,
        is_expression(trees.last()),
        s.stack.len() == 0,
    ensures
        program_code(trees) matches Ok(code) && run(code, s) == eval(trees.last()),
        tree_code(trees.last()) matches Ok(body) && (eval(trees.last()) matches Some(v) ==> exec(
            body,
            s,
        ) matches Outcome::Running(t) && t.stack == seq![v]),
{
    let last = trees.last();
    lemma_expression_code(last, s);
    let body = tree_code(last).unwrap();
    let tail = seq![Instr::PopRax, Instr::Ret];
    lemma_exec_concat(body, tail, s);
    if let Outcome::Running(t) = exec(body, s) {
        let v = eval(last).unwrap();
        lemma_exec_two(Instr::PopRax, Instr::Ret, t);
        assert(s.stack.push(v).drop_last() =~= s.stack);
        assert(s.stack.push(v) =~= seq![v]);
    }
}

/// The full product of two words: the low word and the high word.
fn wide_mul(a: u64, b: u64) -> (r: (u64, u64))
    ensures
        r.0 == wrap(a * b),
        r.1 == (a * b) / 0x1_0000_0000_0000_0000,
{
    assert(0 <= a * b <= 0xffff_ffff_ffff_ffff * 0xffff_ffff_ffff_ffff) by (nonlinear_arith)
        requires
            0 <= a <= 0xffff_ffff_ffff_ffff,
            0 <= b <= 0xffff_ffff_ffff_ffff,
    ;
    let product: u128 = (a as u128) * (b as u128);
    ((product % 0x1_0000_0000_0000_0000) as u64, (product / 0x1_0000_0000_0000_0000) as u64)
}

/// The quotient and the remainder of the two-word number `high:low` by
/// `d`, where `d` is not zero and the quotient fits in a word.
fn wide_div(high: u64, low: u64, d: u64) -> (r: Option<(u64, u64)>)
    ensures
        ({
            let dividend = high * 0x1_0000_0000_0000_0000 + low;
            if d == 0 || dividend / (d as int) > u64::MAX {
                r is None
            } else {
                r == Some(((dividend / (d as int)) as u64, (dividend % (d as int)) as u64))
            }
        }),
{
    if d == 0 {
        return None;
    }
    let dividend: u128 = (high as u128) * 0x1_0000_0000_0000_0000 + (low as u128);
    let quotient: u128 = dividend / (d as u128);
    if quotient > 0xffff_ffff_ffff_ffff {
        return None;
    }
    let remainder: u128 = dividend % (d as u128);
    assert(remainder < d) by (nonlinear_arith)
        requires
            remainder == dividend % (d as u128),
            d > 0,
    ;
    Some((quotient as u64, remainder as u64))
}

/// The machine of the model, with a vector for the stack.
struct Machine {
    rax: u64,
    rdi: u64,
    rdx: u64,
    stack: Vec<u64>,
}

/// What one instruction has left to do.
enum Progress {
    Running,
    Returned(u64),
    Fault,
}

impl View for Machine {
    type V = State;

    closed spec fn view(&self) -> State {
        State { rax: self.rax, rdi: self.rdi, rdx: self.rdx, stack: self.stack@ }
    }
}

impl Machine {
    /// Runs one instruction.
    fn step(&mut self, instr: Instr) -> (r: Progress)
        ensures
            step(instr, old(self)@) == match r {
                Progress::Running => Outcome::Running(final(self)@),
                Progress::Returned(v) => Outcome::Returned(v),
                Progress::Fault => Outcome::Fault,
            },
    {
        match instr {
            Instr::PushImm(n) => {
                self.stack.push(n as u64);
            },
            Instr::PushRax => {
                self.stack.push(self.rax);
            },
            Instr::PopRax => {
                match self.stack.pop() {
                    Some(v) => {
                        self.rax = v;
                    },
                    None => {
                        return Progress::Fault;
                    },
                }
            },
            Instr::PopRdi => {
                match self.stack.pop() {
                    Some(v) => {
                        self.rdi = v;
                    },
                    None => {
                        return Progress::Fault;
                    },
                }
            },
            Instr::Add => {
                self.rax = self.rax.wrapping_add(self.rdi);
            },
            Instr::Sub => {
                self.rax = self.rax.wrapping_sub(self.rdi);
            },
            Instr::Mul => {
                let (low, high) = wide_mul(self.rax, self.rdi);
                self.rax = low;
                self.rdx = high;
            },
            Instr::ZeroRdx => {
                self.rdx = 0;
            },
            Instr::Div => {
                match wide_div(self.rdx, self.rax, self.rdi) {
                    Some((quotient, remainder)) => {
                        self.rax = quotient;
                        self.rdx = remainder;
                    },
                    None => {
                        return Progress::Fault;
                    },
                }
            },
            Instr::MovRaxRdx => {
                self.rax = self.rdx;
            },
            Instr::Ret => {
                if self.stack.len() == 0 {
                    return Progress::Returned(self.rax);
                } else {
                    return Progress::Fault;
                }
            },
        }
        Progress::Running
    }
}

/// Runs `code` on the model, from zeroed registers and the empty stack:
/// the value that it returns, or `None` where it faults or ends without
/// returning.
pub fn execute(code: &[Instr]) -> (r: Option<u64>)
    ensures
        r == run(code@, initial_state()),
{
    let mut machine = Machine { rax: 0, rdi: 0, rdx: 0, stack: Vec::new() };
    let mut pc: usize = 0;
    assert(code@.subrange(0, 0) =~= Seq::empty());
    while pc < code.len()
        invariant
            pc <= code.len(),
            exec(code@.subrange(0, pc as int), initial_state()) == Outcome::Running(machine@),
        decreases code.len() - pc,
    {
        proof {
            let prefix = code@.subrange(0, pc + 1);
            let suffix = code@.subrange(pc + 1, code@.len() as int);
            assert(prefix.drop_last() =~= code@.subrange(0, pc as int));
            assert(prefix + suffix =~= code@);
            lemma_exec_concat(prefix, suffix, initial_state());
        }
        match machine.step(code[pc]) {
            Progress::Running => {},
            Progress::Returned(v) => {
                return Some(v);
            },
            Progress::Fault => {
                return None;
            },
        }
        pc += 1;
    }
    assert(code@.subrange(0, pc as int) =~= code@);
    None
}

/// Quotient and remainder complete each other.
pub proof fn lemma_quotient_and_remainder(a: u64, b: u64)
    requires
        b != 0,
    ensures
        apply(SpecAstty::Div, a, b) matches Some(q) && apply(SpecAstty::Mod, a, b) matches Some(r)
            && q * b + r == a && r < b,
{
    vstd::arithmetic::div_mod::lemma_fundamental_div_mod(a as int, b as int);
    vstd::arithmetic::div_mod::lemma_mod_bound(a as int, b as int);
    assert((a as int / b as int) * b == b * (a as int / b as int)) by (nonlinear_arith);
}

} // verus!
