use arith_compiler::ast::{Ast, Astty, Code};
use arith_compiler::codegen::{
    emit, gen, gen_code, gen_program, generate, push_instr, CodegenError, Feature, Instr,
};
use arith_compiler::text::push_decimal;

const HEADER: &str = ".intel_syntax noprefix\n.global _main\n\n_main:\n";

fn num(n: usize) -> Ast {
    Ast::new0(Astty::Num(n))
}

fn bin(ty: Astty, l: Ast, r: Ast) -> Ast {
    Ast::new2(ty, l, r)
}

fn code_of(ast: &Ast) -> Vec<Instr> {
    let mut out = Vec::new();
    gen(ast, &mut out).unwrap();
    out
}

#[test]
fn a_number_is_pushed() {
    assert_eq!(code_of(&num(42)), vec![Instr::PushImm(42)]);
}

#[test]
fn each_operator_has_its_instructions() {
    let operands = vec![Instr::PushImm(6), Instr::PushImm(4), Instr::PopRdi, Instr::PopRax];
    let cases = [
        (Astty::Add, vec![Instr::Add, Instr::PushRax]),
        (Astty::Sub, vec![Instr::Sub, Instr::PushRax]),
        (Astty::Mul, vec![Instr::Mul, Instr::PushRax]),
        (Astty::Div, vec![Instr::ZeroRdx, Instr::Div, Instr::PushRax]),
        (Astty::Mod, vec![Instr::ZeroRdx, Instr::Div, Instr::MovRaxRdx, Instr::PushRax]),
    ];
    for (ty, own) in cases {
        let mut expected = operands.clone();
        expected.extend(own);
        assert_eq!(code_of(&bin(ty, num(6), num(4))), expected);
    }
}

#[test]
fn operands_come_first_from_left_to_right() {
    let tree = bin(Astty::Sub, bin(Astty::Add, num(1), num(2)), bin(Astty::Mul, num(3), num(4)));
    assert_eq!(
        code_of(&tree),
        vec![
            Instr::PushImm(1),
            Instr::PushImm(2),
            Instr::PopRdi,
            Instr::PopRax,
            Instr::Add,
            Instr::PushRax,
            Instr::PushImm(3),
            Instr::PushImm(4),
            Instr::PopRdi,
            Instr::PopRax,
            Instr::Mul,
            Instr::PushRax,
            Instr::PopRdi,
            Instr::PopRax,
            Instr::Sub,
            Instr::PushRax,
        ]
    );
}

#[test]
fn an_eof_leaf_has_no_code() {
    assert_eq!(code_of(&Ast::new0(Astty::Eof)), vec![]);
}

#[test]
fn gen_appends_to_what_is_there() {
    let mut out = vec![Instr::Ret];
    gen(&num(1), &mut out).unwrap();
    assert_eq!(out, vec![Instr::Ret, Instr::PushImm(1)]);
}

#[test]
fn identifiers_have_no_code() {
    let mut out = Vec::new();
    let tree = Ast::new0(Astty::Id("x".to_string()));
    assert_eq!(
        gen(&tree, &mut out),
        Err(CodegenError::UnsupportedFeature(Feature::Identifier))
    );
    assert_eq!(out, vec![]);
    assert_eq!(Feature::Identifier.name(), "identifier");
}

#[test]
fn assignments_have_no_code() {
    let mut out = Vec::new();
    let tree = bin(Astty::Assign, num(1), num(2));
    assert_eq!(
        gen(&tree, &mut out),
        Err(CodegenError::UnsupportedFeature(Feature::Assignment))
    );
    assert_eq!(out, vec![]);
    assert_eq!(Feature::Assignment.name(), "assignment");
}

#[test]
fn the_first_node_without_code_decides() {
    let mut out = vec![Instr::Ret];
    let tree = bin(
        Astty::Assign,
        bin(Astty::Add, num(1), Ast::new0(Astty::Id("y".to_string()))),
        num(2),
    );
    assert_eq!(
        gen(&tree, &mut out),
        Err(CodegenError::UnsupportedFeature(Feature::Identifier))
    );
    assert_eq!(out, vec![Instr::Ret]);
}

fn pushes(code: &[Instr]) -> usize {
    code.iter().filter(|i| matches!(i, Instr::PushImm(_) | Instr::PushRax)).count()
}

fn pops(code: &[Instr]) -> usize {
    code.iter().filter(|i| matches!(i, Instr::PopRax | Instr::PopRdi)).count()
}

#[test]
fn gen_code_is_the_code_of_the_last_statement_alone() {
    let code: Code = vec![
        Box::new(bin(Astty::Add, num(1), num(2))),
        Box::new(bin(Astty::Mul, num(3), num(4))),
    ];
    let body = gen_code(&code).unwrap();
    assert_eq!(
        body,
        vec![
            Instr::PushImm(3),
            Instr::PushImm(4),
            Instr::PopRdi,
            Instr::PopRax,
            Instr::Mul,
            Instr::PushRax,
        ]
    );
    assert_eq!(body, code_of(&code[1]));
    let code: Code = vec![Box::new(bin(Astty::Add, num(1), num(2))), Box::new(num(9))];
    assert_eq!(gen_code(&code), Ok(vec![Instr::PushImm(9)]));
}

#[test]
fn the_code_of_a_statement_leaves_one_value() {
    let trees = [
        num(5),
        bin(Astty::Add, num(1), num(2)),
        bin(Astty::Div, bin(Astty::Sub, num(9), num(1)), bin(Astty::Mod, num(7), num(4))),
        bin(Astty::Mul, num(1), bin(Astty::Mul, num(2), bin(Astty::Mul, num(3), num(4)))),
    ];
    for tree in trees {
        let code: Code = vec![Box::new(tree)];
        let body = gen_code(&code).unwrap();
        assert_eq!(pushes(&body), pops(&body) + 1);
        for k in 0..=body.len() {
            assert!(pops(&body[..k]) <= pushes(&body[..k]));
        }
    }
}

#[test]
fn a_program_is_its_last_statement_and_the_return() {
    let code: Code = vec![Box::new(bin(Astty::Add, num(1), num(2))), Box::new(num(9))];
    assert_eq!(gen_program(&code), Ok(vec![Instr::PushImm(9), Instr::PopRax, Instr::Ret]));
    let whole = gen_program(&code).unwrap();
    assert_eq!(pushes(&whole), pops(&whole));
}

#[test]
fn earlier_statements_are_not_generated() {
    let code: Code = vec![Box::new(bin(Astty::Assign, num(1), num(2))), Box::new(num(9))];
    assert_eq!(gen_code(&code), Ok(vec![Instr::PushImm(9)]));
    assert_eq!(gen_program(&code), Ok(vec![Instr::PushImm(9), Instr::PopRax, Instr::Ret]));
    let code: Code = vec![Box::new(num(9)), Box::new(bin(Astty::Assign, num(1), num(2)))];
    assert_eq!(gen_code(&code), Err(CodegenError::UnsupportedFeature(Feature::Assignment)));
    assert_eq!(gen_program(&code), Err(CodegenError::UnsupportedFeature(Feature::Assignment)));
}

#[test]
fn an_empty_program_has_no_code() {
    let code: Code = Vec::new();
    assert_eq!(gen_code(&code), Err(CodegenError::EmptyProgram));
    assert_eq!(gen_program(&code), Err(CodegenError::EmptyProgram));
    assert_eq!(generate(&code), Err(CodegenError::EmptyProgram));
}

#[test]
fn every_instruction_has_its_line() {
    let cases = [
        (Instr::PushImm(0), "\tpush 0\n"),
        (Instr::PushImm(1234567890), "\tpush 1234567890\n"),
        (Instr::PushRax, "\tpush rax\n"),
        (Instr::PopRax, "\tpop rax\n"),
        (Instr::PopRdi, "\tpop rdi\n"),
        (Instr::Add, "\tadd rax, rdi\n"),
        (Instr::Sub, "\tsub rax, rdi\n"),
        (Instr::Mul, "\tmul rdi\n"),
        (Instr::ZeroRdx, "\tmov rdx, 0\n"),
        (Instr::Div, "\tdiv rdi\n"),
        (Instr::MovRaxRdx, "\tmov rax, rdx\n"),
        (Instr::Ret, "\tret\n"),
    ];
    for (instr, line) in cases {
        let mut out = String::from("x");
        push_instr(&mut out, instr);
        assert_eq!(out, format!("x{}", line));
    }
}

#[test]
fn numbers_are_written_in_decimal() {
    let cases = [
        (0usize, "0".to_string()),
        (7, "7".to_string()),
        (9, "9".to_string()),
        (10, "10".to_string()),
        (99, "99".to_string()),
        (100, "100".to_string()),
        (12345, "12345".to_string()),
        (usize::MAX, usize::MAX.to_string()),
    ];
    for (n, text) in cases {
        let mut out = String::from("n=");
        push_decimal(&mut out, n);
        assert_eq!(out, format!("n={}", text));
    }
}

#[test]
fn the_file_is_header_and_lines() {
    assert_eq!(emit(&vec![]), HEADER);
    assert_eq!(
        emit(&vec![Instr::PushImm(5), Instr::PopRax, Instr::Ret]),
        format!("{}\tpush 5\n\tpop rax\n\tret\n", HEADER)
    );
}

#[test]
fn modulo_moves_the_remainder_into_rax() {
    let code: Code = vec![Box::new(bin(Astty::Mod, num(10), num(3)))];
    assert_eq!(
        generate(&code).unwrap(),
        format!(
            "{}\tpush 10\n\tpush 3\n\tpop rdi\n\tpop rax\n\tmov rdx, 0\n\tdiv rdi\n\tmov rax, rdx\n\tpush rax\n\tpop rax\n\tret\n",
            HEADER
        )
    );
}

#[test]
fn division_clears_rdx_first() {
    let code: Code = vec![Box::new(bin(Astty::Div, num(10), num(3)))];
    assert_eq!(
        generate(&code).unwrap(),
        format!(
            "{}\tpush 10\n\tpush 3\n\tpop rdi\n\tpop rax\n\tmov rdx, 0\n\tdiv rdi\n\tpush rax\n\tpop rax\n\tret\n",
            HEADER
        )
    );
}
