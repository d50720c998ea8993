use arith_compiler::ast::{Ast, Astty, Code};
use arith_compiler::codegen::{gen_code, gen_program, Instr};
use arith_compiler::machine::execute;

fn num(n: usize) -> Ast {
    Ast::new0(Astty::Num(n))
}

fn value(ty: Astty, a: usize, b: usize) -> Option<u64> {
    let code: Code = vec![Box::new(Ast::new2(ty, num(a), num(b)))];
    execute(&gen_program(&code).unwrap())
}

#[test]
fn a_returned_number() {
    assert_eq!(execute(&[Instr::PushImm(5), Instr::PopRax, Instr::Ret]), Some(5));
    assert_eq!(execute(&[Instr::Ret]), Some(0));
}

#[test]
fn what_follows_the_return_does_not_run() {
    assert_eq!(
        execute(&[Instr::PushImm(5), Instr::PopRax, Instr::Ret, Instr::PopRax, Instr::Div]),
        Some(5)
    );
}

#[test]
fn the_operators_on_small_numbers() {
    assert_eq!(value(Astty::Add, 6, 4), Some(10));
    assert_eq!(value(Astty::Sub, 6, 4), Some(2));
    assert_eq!(value(Astty::Mul, 6, 4), Some(24));
    assert_eq!(value(Astty::Div, 6, 4), Some(1));
    assert_eq!(value(Astty::Mod, 6, 4), Some(2));
    assert_eq!(value(Astty::Div, 4, 6), Some(0));
    assert_eq!(value(Astty::Mod, 4, 6), Some(4));
}

#[test]
fn the_left_operand_is_in_rax() {
    assert_eq!(value(Astty::Sub, 10, 3), Some(7));
    assert_eq!(value(Astty::Div, 12, 3), Some(4));
    assert_eq!(value(Astty::Mod, 12, 5), Some(2));
}

#[test]
fn sums_differences_and_products_wrap() {
    assert_eq!(value(Astty::Sub, 0, 1), Some(u64::MAX));
    assert_eq!(value(Astty::Sub, 3, 5), Some(u64::MAX - 1));
    let big = usize::MAX;
    let wide = big as u64;
    assert_eq!(value(Astty::Add, big, 1), Some(wide.wrapping_add(1)));
    assert_eq!(value(Astty::Add, big, big), Some(wide.wrapping_add(wide)));
    assert_eq!(value(Astty::Mul, big, 2), Some(wide.wrapping_mul(2)));
    assert_eq!(value(Astty::Mul, big, big), Some(wide.wrapping_mul(wide)));
}

#[test]
fn quotient_and_remainder_complete_each_other() {
    for (a, b) in [(10usize, 3usize), (0, 7), (7, 7), (1, 9), (1000, 1), (usize::MAX, 10)] {
        let q = value(Astty::Div, a, b).unwrap();
        let r = value(Astty::Mod, a, b).unwrap();
        assert_eq!(q * (b as u64) + r, a as u64);
        assert!(r < b as u64);
    }
}

#[test]
fn division_by_zero_faults_when_the_program_runs() {
    assert_eq!(value(Astty::Div, 10, 0), None);
    assert_eq!(value(Astty::Mod, 10, 0), None);
    assert_eq!(value(Astty::Div, 0, 0), None);
    let inner = Ast::new2(Astty::Div, num(1), num(0));
    let code: Code = vec![Box::new(Ast::new2(Astty::Mul, num(0), inner))];
    assert_eq!(execute(&gen_program(&code).unwrap()), None);
}

#[test]
fn the_code_of_the_statements_alone_does_not_return() {
    let code: Code = vec![Box::new(Ast::new2(Astty::Add, num(1), num(2)))];
    assert_eq!(execute(&gen_code(&code).unwrap()), None);
    assert_eq!(execute(&gen_program(&code).unwrap()), Some(3));
}

#[test]
fn a_pop_from_the_empty_stack_faults() {
    assert_eq!(execute(&[Instr::PopRax, Instr::Ret]), None);
    assert_eq!(execute(&[Instr::PopRdi, Instr::Ret]), None);
    assert_eq!(execute(&[Instr::PushImm(1), Instr::PopRdi, Instr::PopRax, Instr::Ret]), None);
}

#[test]
fn a_return_with_values_left_faults() {
    assert_eq!(execute(&[Instr::PushImm(1), Instr::Ret]), None);
    assert_eq!(
        execute(&[Instr::PushImm(1), Instr::PushImm(2), Instr::PopRax, Instr::Ret]),
        None
    );
}

#[test]
fn code_without_return_gives_nothing() {
    assert_eq!(execute(&[]), None);
    assert_eq!(execute(&[Instr::PushImm(1), Instr::PopRax]), None);
}

#[test]
fn the_product_fills_rdx_with_its_high_word() {
    let big = u32::MAX as usize;
    assert_eq!(
        execute(&[
            Instr::PushImm(big),
            Instr::PopRax,
            Instr::PushImm(2),
            Instr::PopRdi,
            Instr::Mul,
            Instr::MovRaxRdx,
            Instr::Ret,
        ]),
        Some(0)
    );
}

#[test]
fn a_quotient_that_does_not_fit_faults() {
    if usize::BITS == 64 {
        // The product leaves rdx = 2^64 - 2 and rax = 1; divided by 1 the
        // quotient needs two words.
        assert_eq!(
            execute(&[
                Instr::PushImm(usize::MAX),
                Instr::PopRax,
                Instr::PushImm(usize::MAX),
                Instr::PopRdi,
                Instr::Mul,
                Instr::PushImm(1),
                Instr::PopRdi,
                Instr::Div,
                Instr::Ret,
            ]),
            None
        );
    }
}

#[test]
fn division_takes_rdx_for_the_high_word() {
    if usize::BITS == 64 {
        // 2^63 * 4 leaves rdx = 2 and rax = 0; divided by 4 that is 2^63 again.
        let half = 1usize << 63;
        assert_eq!(
            execute(&[
                Instr::PushImm(half),
                Instr::PopRax,
                Instr::PushImm(4),
                Instr::PopRdi,
                Instr::Mul,
                Instr::Div,
                Instr::Ret,
            ]),
            Some(1u64 << 63)
        );
        // The remainder of 2^65 + 3 by 4.
        assert_eq!(
            execute(&[
                Instr::PushImm(half),
                Instr::PopRax,
                Instr::PushImm(4),
                Instr::PopRdi,
                Instr::Mul,
                Instr::PushImm(3),
                Instr::PopRax,
                Instr::Div,
                Instr::MovRaxRdx,
                Instr::Ret,
            ]),
            Some(3)
        );
    }
}

#[test]
fn cleared_rdx_leaves_the_dividend_in_rax() {
    assert_eq!(
        execute(&[
            Instr::PushImm(5),
            Instr::PopRax,
            Instr::PushImm(2),
            Instr::PopRdi,
            Instr::ZeroRdx,
            Instr::Div,
            Instr::Ret,
        ]),
        Some(2)
    );
    assert_eq!(
        execute(&[
            Instr::PushImm(5),
            Instr::PopRax,
            Instr::PushImm(2),
            Instr::PopRdi,
            Instr::ZeroRdx,
            Instr::Div,
            Instr::MovRaxRdx,
            Instr::Ret,
        ]),
        Some(1)
    );
}
