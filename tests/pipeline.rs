use std::collections::HashMap;

use ulang::assembly::{
    generate_assembly, AsmBinaryOperator, AsmFunctionDef, AsmInstruction, AsmProgram,
    AsmProgramWithFixedInstructions, AsmProgramWithReplacedPseudoRegisters, AsmRegistry,
    ConditionCode, Operand, PseudoRegistryHash, TargetPlatform,
};
use ulang::ast::{
    AstNode, BinaryOperator, Expression, Factor, FunctionDecl, Identifier, Statement,
    UnaryOperator, VarType,
};
use ulang::lexer::Token;
use ulang::tacky::{Instruction, Tacky, TackyBinaryOperator, TackyProgram, Value};

fn constant(c: i32) -> Expression {
    Expression::Factor(Factor::Constant(c))
}

fn unary(op: UnaryOperator, e: Expression) -> Expression {
    Expression::Factor(Factor::Unary(op, Box::new(e)))
}

fn parens(e: Expression) -> Expression {
    Expression::Factor(Factor::ParentedExpression(Box::new(e)))
}

fn binary(l: Expression, op: BinaryOperator, r: Expression) -> Expression {
    Expression::Binary(Box::new(l), op, Box::new(r))
}

fn program_with_body(body: Statement) -> AstNode {
    AstNode::Program(vec![AstNode::FunctionDeclaration(FunctionDecl {
        return_type: VarType::Int,
        name: "main".to_string(),
        parameters: vec![],
        body,
    })])
}

fn returning(e: Expression) -> AstNode {
    program_with_body(Statement::Compound(vec![Statement::ReturnStatement(Some(e))]))
}

fn lower(node: AstNode) -> Result<TackyProgram, String> {
    Tacky::from_program_node(node).expect("a program node").parse()
}

fn pipeline(e: Expression) -> AsmProgramWithFixedInstructions {
    let tacky = lower(returning(e)).unwrap();
    let selected = AsmProgram::from(&tacky);
    AsmProgramWithFixedInstructions::from(AsmProgramWithReplacedPseudoRegisters::from(selected))
}

fn var(name: &str) -> Value {
    Value::Var(Identifier(name.to_string()))
}

fn is_var(v: &Value, name: &str) -> bool {
    matches!(v, Value::Var(Identifier(n)) if n == name)
}

struct Machine {
    ax: i32,
    dx: i32,
    r10: i32,
    r11: i32,
    stack: HashMap<i32, i32>,
    flags: (i32, i32),
}

impl Machine {
    fn read(&self, o: &Operand) -> i32 {
        match o {
            Operand::Register(AsmRegistry::AX) => self.ax,
            Operand::Register(AsmRegistry::DX) => self.dx,
            Operand::Register(AsmRegistry::R10) => self.r10,
            Operand::Register(AsmRegistry::R11) => self.r11,
            Operand::Imm(i) => *i,
            Operand::Stack(off) => *self.stack.get(off).unwrap_or(&0),
            Operand::Pseudo(_) => panic!("pseudo operand after allocation"),
        }
    }

    fn write(&mut self, o: &Operand, v: i32) {
        match o {
            Operand::Register(AsmRegistry::AX) => self.ax = v,
            Operand::Register(AsmRegistry::DX) => self.dx = v,
            Operand::Register(AsmRegistry::R10) => self.r10 = v,
            Operand::Register(AsmRegistry::R11) => self.r11 = v,
            Operand::Stack(off) => {
                self.stack.insert(*off, v);
            }
            _ => panic!("cannot write {:?}", o),
        }
    }
}

/// Runs straight-line x86 code as the hardware would and returns `%eax`.
fn execute(code: &[AsmInstruction]) -> i32 {
    let mut m = Machine { ax: 0, dx: 0, r10: 0, r11: 0, stack: HashMap::new(), flags: (0, 0) };
    for ins in code {
        match ins {
            AsmInstruction::Mov { src, dst } => {
                let v = m.read(src);
                m.write(dst, v);
            }
            AsmInstruction::Unary(op, o) => {
                let v = m.read(o);
                let r = match op {
                    ulang::assembly::AsmUnaryOperator::Neg => v.wrapping_neg(),
                    ulang::assembly::AsmUnaryOperator::Complement => !v,
                };
                m.write(o, r);
            }
            AsmInstruction::Binary(op, a, b) => {
                let (x, y) = (m.read(b), m.read(a));
                let r = match op {
                    AsmBinaryOperator::Add => x.wrapping_add(y),
                    AsmBinaryOperator::Sub => x.wrapping_sub(y),
                    AsmBinaryOperator::Mult => x.wrapping_mul(y),
                };
                m.write(b, r);
            }
            AsmInstruction::Cmp(a, b) => m.flags = (m.read(b), m.read(a)),
            AsmInstruction::Cdq => m.dx = if m.ax < 0 { -1 } else { 0 },
            AsmInstruction::Idiv(o) => {
                let d = m.read(o) as i64;
                let n = ((m.dx as i64) << 32) | (m.ax as u32 as i64);
                m.ax = (n / d) as i32;
                m.dx = (n % d) as i32;
            }
            AsmInstruction::SetCC(cc, o) => {
                let (x, y) = m.flags;
                let holds = match cc {
                    ConditionCode::E => x == y,
                    ConditionCode::NE => x != y,
                    ConditionCode::G => x > y,
                    ConditionCode::GE => x >= y,
                    ConditionCode::L => x < y,
                    ConditionCode::LE => x <= y,
                };
                let old = m.read(o);
                m.write(o, (old & !0xff) | holds as i32);
            }
            AsmInstruction::AllocateStack(_) | AsmInstruction::Label(_) => {}
            AsmInstruction::Return => return m.ax,
            other => panic!("control flow is not straight-line: {:?}", other),
        }
    }
    panic!("no return")
}

fn evaluate(e: Expression) -> i32 {
    execute(&pipeline(e).0 .0.instructions)
}

fn both_stack(a: &Operand, b: &Operand) -> bool {
    matches!(a, Operand::Stack(_)) && matches!(b, Operand::Stack(_))
}

fn memory_pairs(code: &[AsmInstruction]) -> usize {
    code.iter()
        .filter(|i| match i {
            AsmInstruction::Mov { src, dst } => both_stack(src, dst),
            AsmInstruction::Cmp(a, b) => both_stack(a, b),
            _ => false,
        })
        .count()
}

const LINUX_RETURN_2: &str = "\t.globl main\nmain:\n\tpush\t%rbp\n\tmov\t%rsp, %rbp\n\tsubq $0, %rsp\n\tmovl\t$2, %eax\n\tmovq\t%rbp, %rsp\n\tpopq\t%rbp\n\tret\n\t.section\t.note.GNU-stack,\"\",@progbits\n";

#[test]
fn constant_return_linux_text() {
    let tacky = lower(returning(constant(2))).unwrap();
    let text = generate_assembly(&tacky, TargetPlatform::X64Linux).0;
    assert_eq!(text, LINUX_RETURN_2);
}

#[test]
fn constant_return_macos_text() {
    let tacky = lower(returning(constant(2))).unwrap();
    let text = generate_assembly(&tacky, TargetPlatform::MacOsX64).0;
    assert_eq!(
        text,
        "\t.globl _main\n_main:\n\tpush\t%rbp\n\tmov\t%rsp, %rbp\n\tsubq $0, %rsp\n\tmovl\t$2, %eax\n\tmovq\t%rbp, %rsp\n\tpopq\t%rbp\n\tret\n"
    );
}

#[test]
fn constant_return_is_stable_across_compilations() {
    for c in [0, 7, -13, i32::MAX, i32::MIN] {
        let first = generate_assembly(&lower(returning(constant(c))).unwrap(), TargetPlatform::X64Linux).0;
        let second = generate_assembly(&lower(returning(constant(c))).unwrap(), TargetPlatform::X64Linux).0;
        assert_eq!(first, second);
        assert!(first.contains(&format!("\tmovl\t${}, %eax\n", c)));
        assert_eq!(evaluate(constant(c)), c);
    }
}

#[test]
fn reparsing_the_same_builder_restarts_temporaries() {
    let mut tacky = Tacky::from_program_node(returning(unary(UnaryOperator::Negate, constant(1)))).unwrap();
    let first = tacky.parse().unwrap();
    let second = tacky.parse().unwrap();
    assert!(matches!(&first.0.instruction[0], Instruction::Unary { dest, .. } if is_var(dest, "tmp.0")));
    assert!(matches!(&second.0.instruction[0], Instruction::Unary { dest, .. } if is_var(dest, "tmp.0")));
    assert_eq!(tacky.counter, 1);
}

#[test]
fn nested_unary_makes_one_temporary_per_level() {
    let e = unary(UnaryOperator::Negate, parens(unary(UnaryOperator::Negate, parens(constant(5)))));
    let ir = lower(returning(e)).unwrap().0.instruction;
    assert_eq!(ir.len(), 3);
    match &ir[0] {
        Instruction::Unary { operator: UnaryOperator::Negate, src: Value::Constant(5), dest } => {
            assert!(is_var(dest, "tmp.0"))
        }
        other => panic!("unexpected {:?}", other),
    }
    match &ir[1] {
        Instruction::Unary { operator: UnaryOperator::Negate, src, dest } => {
            assert!(is_var(src, "tmp.0"));
            assert!(is_var(dest, "tmp.1"));
        }
        other => panic!("unexpected {:?}", other),
    }
    assert!(matches!(&ir[2], Instruction::Return(v) if is_var(v, "tmp.1")));
    assert_eq!(evaluate(unary(UnaryOperator::Negate, parens(unary(UnaryOperator::Negate, parens(constant(5)))))), 5);
}

#[test]
fn three_level_unary_chain() {
    let e = unary(UnaryOperator::Complement, unary(UnaryOperator::Negate, unary(UnaryOperator::Not, constant(0))));
    let ir = lower(returning(e)).unwrap().0.instruction;
    let unaries = ir.iter().filter(|i| matches!(i, Instruction::Unary { .. })).count();
    assert_eq!(unaries, 3);
    assert!(matches!(&ir[2], Instruction::Unary { dest, .. } if is_var(dest, "tmp.2")));
    // !0 = 1, -1 = -1, ~(-1) = 0
    assert_eq!(evaluate(unary(UnaryOperator::Complement, unary(UnaryOperator::Negate, unary(UnaryOperator::Not, constant(0))))), 0);
}

#[test]
fn logical_not_uses_compare_and_set() {
    let code = pipeline(unary(UnaryOperator::Not, constant(7))).0 .0.instructions;
    assert!(code.iter().any(|i| matches!(i, AsmInstruction::SetCC(ConditionCode::E, _))));
    assert!(!code.iter().any(|i| matches!(i, AsmInstruction::Unary(..))));
    assert_eq!(evaluate(unary(UnaryOperator::Not, constant(7))), 0);
    assert_eq!(evaluate(unary(UnaryOperator::Not, constant(0))), 1);
}

#[test]
fn arithmetic_matches_wrapping_i32() {
    let cases: [(i32, BinaryOperator, i32, i32); 14] = [
        (2, BinaryOperator::Add, 3, 5),
        (i32::MAX, BinaryOperator::Add, 1, i32::MIN),
        (i32::MIN, BinaryOperator::Substract, 1, i32::MAX),
        (4, BinaryOperator::Substract, 9, -5),
        (65536, BinaryOperator::Multiply, 65536, 0),
        (-6, BinaryOperator::Multiply, 7, -42),
        (7, BinaryOperator::Divide, 2, 3),
        (-7, BinaryOperator::Divide, 2, -3),
        (7, BinaryOperator::Divide, -2, -3),
        (-7, BinaryOperator::Remainder, 2, -1),
        (7, BinaryOperator::Remainder, -2, 1),
        (i32::MIN, BinaryOperator::Divide, 1, i32::MIN),
        (3, BinaryOperator::LessOrEqual, 3, 1),
        (4, BinaryOperator::LessOrEqual, 3, 0),
    ];
    for (a, op, b, expected) in cases {
        let native = match op {
            BinaryOperator::Add => a.wrapping_add(b),
            BinaryOperator::Substract => a.wrapping_sub(b),
            BinaryOperator::Multiply => a.wrapping_mul(b),
            BinaryOperator::Divide => a / b,
            BinaryOperator::Remainder => a % b,
            BinaryOperator::LessOrEqual => (a <= b) as i32,
            _ => unreachable!(),
        };
        assert_eq!(native, expected);
        assert_eq!(evaluate(binary(constant(a), op, constant(b))), expected, "{} {:?} {}", a, op, b);
    }
}

#[test]
fn comparisons_evaluate_to_zero_or_one() {
    let cases: [(i32, BinaryOperator, i32, i32); 8] = [
        (1, BinaryOperator::LessThan, 2, 1),
        (2, BinaryOperator::LessThan, 1, 0),
        (2, BinaryOperator::GreaterThan, 1, 1),
        (1, BinaryOperator::GreaterThan, 1, 0),
        (1, BinaryOperator::GreaterOrEqual, 1, 1),
        (0, BinaryOperator::GreaterOrEqual, 1, 0),
        (3, BinaryOperator::NotEqual, 4, 1),
        (-1, BinaryOperator::LessOrEqual, 0, 1),
    ];
    for (a, op, b, expected) in cases {
        assert_eq!(evaluate(binary(constant(a), op, constant(b))), expected, "{} {:?} {}", a, op, b);
    }
}

#[test]
fn less_or_equal_selects_le() {
    let tacky = lower(returning(binary(constant(1), BinaryOperator::LessOrEqual, constant(2)))).unwrap();
    assert!(matches!(
        &tacky.0.instruction[0],
        Instruction::Binary { operator: TackyBinaryOperator::LessOrEqual, .. }
    ));
    let selected = AsmProgram::from(&tacky);
    assert!(selected.0.instructions.iter().any(|i| matches!(i, AsmInstruction::SetCC(ConditionCode::LE, _))));
}

#[test]
fn remainder_copies_the_remainder_register() {
    let tacky = lower(returning(binary(constant(10), BinaryOperator::Remainder, constant(3)))).unwrap();
    let selected = AsmProgram::from(&tacky);
    assert!(matches!(
        &selected.0.instructions[3],
        AsmInstruction::Mov { src: Operand::Register(AsmRegistry::DX), .. }
    ));
    assert_eq!(evaluate(binary(constant(10), BinaryOperator::Remainder, constant(3))), 1);
}

#[test]
fn operands_are_evaluated_left_then_right() {
    let e = binary(
        unary(UnaryOperator::Negate, constant(1)),
        BinaryOperator::Substract,
        unary(UnaryOperator::Complement, constant(2)),
    );
    let ir = lower(returning(e)).unwrap().0.instruction;
    assert!(matches!(&ir[0], Instruction::Unary { operator: UnaryOperator::Negate, dest, .. } if is_var(dest, "tmp.0")));
    assert!(matches!(&ir[1], Instruction::Unary { operator: UnaryOperator::Complement, dest, .. } if is_var(dest, "tmp.1")));
    match &ir[2] {
        Instruction::Binary { operator: TackyBinaryOperator::Substract, src1, src2, dest } => {
            assert!(is_var(src1, "tmp.0"));
            assert!(is_var(src2, "tmp.1"));
            assert!(is_var(dest, "tmp.2"));
        }
        other => panic!("unexpected {:?}", other),
    }
}

#[test]
fn allocation_of_a_name_twice_gives_one_slot() {
    let mut frame = PseudoRegistryHash::new();
    let a = Identifier("tmp.0".to_string());
    let b = Identifier("tmp.1".to_string());
    assert_eq!(frame.get(&a), -4);
    assert_eq!(frame.get(&b), -8);
    assert_eq!(frame.get(&a), -4);
    assert_eq!(frame.get(&b), -8);
    assert_eq!(frame.stack_to_allocate(), 8);
}

#[test]
fn allocation_follows_first_use() {
    let code = vec![
        AsmInstruction::Mov { src: Operand::Imm(1), dst: Operand::Pseudo(Identifier("x".to_string())) },
        AsmInstruction::Mov { src: Operand::Pseudo(Identifier("y".to_string())), dst: Operand::Pseudo(Identifier("x".to_string())) },
        AsmInstruction::Idiv(Operand::Pseudo(Identifier("y".to_string()))),
    ];
    let program = AsmProgram(AsmFunctionDef { name: "f".to_string(), instructions: code });
    let replaced = AsmProgramWithReplacedPseudoRegisters::from(program);
    assert_eq!(replaced.1, 8);
    let out = &replaced.0 .0.instructions;
    assert!(matches!(&out[0], AsmInstruction::Mov { src: Operand::Imm(1), dst: Operand::Stack(-4) }));
    assert!(matches!(&out[1], AsmInstruction::Mov { src: Operand::Stack(-8), dst: Operand::Stack(-4) }));
    assert!(matches!(&out[2], AsmInstruction::Idiv(Operand::Stack(-8))));
}

#[test]
fn legalization_splits_memory_to_memory_forms() {
    let code = vec![
        AsmInstruction::Mov { src: Operand::Stack(-4), dst: Operand::Stack(-8) },
        AsmInstruction::Cmp(Operand::Stack(-4), Operand::Stack(-8)),
        AsmInstruction::Mov { src: Operand::Imm(3), dst: Operand::Stack(-8) },
        AsmInstruction::Return,
    ];
    let program = AsmProgram(AsmFunctionDef { name: "f".to_string(), instructions: code });
    let fixed = AsmProgramWithFixedInstructions::from(AsmProgramWithReplacedPseudoRegisters(program, 8));
    let out = &fixed.0 .0.instructions;
    assert_eq!(out.len(), 7);
    assert!(matches!(&out[0], AsmInstruction::AllocateStack(8)));
    assert!(matches!(&out[1], AsmInstruction::Mov { src: Operand::Stack(-4), dst: Operand::Register(AsmRegistry::R10) }));
    assert!(matches!(&out[2], AsmInstruction::Mov { src: Operand::Register(AsmRegistry::R10), dst: Operand::Stack(-8) }));
    assert!(matches!(&out[3], AsmInstruction::Mov { src: Operand::Stack(-4), dst: Operand::Register(AsmRegistry::R10) }));
    assert!(matches!(&out[4], AsmInstruction::Cmp(Operand::Register(AsmRegistry::R10), Operand::Stack(-8))));
    assert!(matches!(&out[5], AsmInstruction::Mov { src: Operand::Imm(3), dst: Operand::Stack(-8) }));
    assert!(matches!(&out[6], AsmInstruction::Return));
    assert_eq!(memory_pairs(out), 0);
}

#[test]
fn legalized_programs_have_no_memory_pairs() {
    let exprs = vec![
        binary(binary(constant(1), BinaryOperator::Add, constant(2)), BinaryOperator::Multiply, binary(constant(3), BinaryOperator::Substract, constant(4))),
        binary(unary(UnaryOperator::Negate, constant(8)), BinaryOperator::Divide, unary(UnaryOperator::Negate, constant(2))),
        binary(unary(UnaryOperator::Not, constant(8)), BinaryOperator::Equal, unary(UnaryOperator::Complement, constant(2))),
    ];
    let expected = [-3, 4, 0];
    for (e, want) in exprs.into_iter().zip(expected) {
        let code = pipeline(e).0 .0.instructions;
        assert_eq!(memory_pairs(&code), 0);
        assert_eq!(execute(&code), want);
    }
}

#[test]
fn precedence_scenario_one_plus_two_times_three() {
    let e = binary(constant(1), BinaryOperator::Add, binary(constant(2), BinaryOperator::Multiply, constant(3)));
    let ir = lower(returning(e)).unwrap().0.instruction;
    assert_eq!(ir.len(), 3);
    match &ir[0] {
        Instruction::Binary { operator: TackyBinaryOperator::Multiply, src1: Value::Constant(2), src2: Value::Constant(3), dest } => {
            assert!(is_var(dest, "tmp.0"))
        }
        other => panic!("unexpected {:?}", other),
    }
    match &ir[1] {
        Instruction::Binary { operator: TackyBinaryOperator::Add, src1: Value::Constant(1), src2, dest } => {
            assert!(is_var(src2, "tmp.0"));
            assert!(is_var(dest, "tmp.1"));
        }
        other => panic!("unexpected {:?}", other),
    }
    let e = binary(constant(1), BinaryOperator::Add, binary(constant(2), BinaryOperator::Multiply, constant(3)));
    let code = pipeline(e).0 .0.instructions;
    assert!(code.iter().any(|i| matches!(i, AsmInstruction::Binary(AsmBinaryOperator::Mult, ..))));
    assert_eq!(execute(&code), 7);
}

#[test]
fn division_scenario_ten_by_three() {
    let code = pipeline(binary(constant(10), BinaryOperator::Divide, constant(3))).0 .0.instructions;
    assert!(code.iter().any(|i| matches!(i, AsmInstruction::Cdq)));
    assert!(code.iter().any(|i| matches!(i, AsmInstruction::Idiv(_))));
    assert!(!code.iter().any(|i| matches!(i, AsmInstruction::Binary(..))));
    assert!(!code.iter().any(|i| matches!(i, AsmInstruction::Idiv(Operand::Imm(_)))));
    assert_eq!(execute(&code), 3);
    let text = generate_assembly(&lower(returning(binary(constant(10), BinaryOperator::Divide, constant(3)))).unwrap(), TargetPlatform::X64Linux).0;
    assert!(text.contains("\tcdq\n"));
    assert!(text.contains("\tidivl\t%r10d\n"));
}

#[test]
fn equality_scenario() {
    let code = pipeline(binary(constant(5), BinaryOperator::Equal, constant(5))).0 .0.instructions;
    let cmp = code.iter().position(|i| matches!(i, AsmInstruction::Cmp(..))).unwrap();
    let set = code.iter().position(|i| matches!(i, AsmInstruction::SetCC(ConditionCode::E, _))).unwrap();
    assert!(cmp < set);
    assert_eq!(execute(&code), 1);
    assert_eq!(evaluate(binary(constant(5), BinaryOperator::Equal, constant(6))), 0);
}

#[test]
fn platforms_differ_only_in_symbol_and_note() {
    let e = || binary(constant(10), BinaryOperator::Remainder, unary(UnaryOperator::Negate, constant(4)));
    let mac = generate_assembly(&lower(returning(e())).unwrap(), TargetPlatform::MacOsX64).0;
    let linux = generate_assembly(&lower(returning(e())).unwrap(), TargetPlatform::X64Linux).0;
    let mac_body = mac.strip_prefix("\t.globl _main\n_main:\n").unwrap();
    let linux_body = linux
        .strip_prefix("\t.globl main\nmain:\n")
        .unwrap()
        .strip_suffix("\t.section\t.note.GNU-stack,\"\",@progbits\n")
        .unwrap();
    assert_eq!(mac_body, linux_body);
}

#[test]
fn emitted_text_of_a_comparison() {
    let tacky = lower(returning(binary(constant(1), BinaryOperator::LessThan, constant(2)))).unwrap();
    let text = generate_assembly(&tacky, TargetPlatform::MacOsX64).0;
    let expected = "\t.globl _main\n_main:\n\tpush\t%rbp\n\tmov\t%rsp, %rbp\n\tsubq $4, %rsp\n\tmovl\t$1, %r11d\n\tcmpl\t$2, %r11d\n\tmovl\t$0, -4(%rbp)\n\tsetl\t-4(%rbp)\n\tmovl\t-4(%rbp), %eax\n\tmovq\t%rbp, %rsp\n\tpopq\t%rbp\n\tret\n";
    assert_eq!(text, expected);
}

#[test]
fn logical_and_is_unsupported() {
    let r = lower(returning(binary(constant(1), BinaryOperator::And, constant(0))));
    assert!(r.is_err());
    let r = lower(returning(binary(constant(1), BinaryOperator::Or, constant(0))));
    assert!(r.is_err());
}

#[test]
fn variable_declaration_is_unsupported() {
    let body = Statement::Compound(vec![Statement::VariableDeclaration {
        var_type: VarType::Int,
        name: "x".to_string(),
        initializer: Some(constant(1)),
    }]);
    assert!(lower(program_with_body(body)).is_err());
    let bare = Statement::VariableDeclaration { var_type: VarType::Int, name: "x".to_string(), initializer: None };
    assert!(lower(program_with_body(bare)).is_err());
}

#[test]
fn return_without_value_and_nested_block_are_unsupported() {
    assert!(lower(program_with_body(Statement::Compound(vec![Statement::ReturnStatement(None)]))).is_err());
    assert!(lower(program_with_body(Statement::Compound(vec![Statement::Compound(vec![])]))).is_err());
}

#[test]
fn a_program_must_start_with_a_function() {
    assert!(lower(AstNode::Program(vec![])).is_err());
    assert!(lower(AstNode::Program(vec![AstNode::Expression(constant(1))])).is_err());
    assert!(Tacky::from_program_node(AstNode::Expression(constant(1))).is_none());
}

#[test]
fn bare_return_body_and_empty_block() {
    let tacky = lower(program_with_body(Statement::ReturnStatement(Some(constant(4))))).unwrap();
    assert_eq!(tacky.0.identifier, "main");
    assert!(matches!(&tacky.0.instruction[..], [Instruction::Return(Value::Constant(4))]));
    let empty = lower(program_with_body(Statement::Compound(vec![]))).unwrap();
    assert!(empty.0.instruction.is_empty());
}

#[test]
fn several_returns_share_one_counter() {
    let body = Statement::Compound(vec![
        Statement::ReturnStatement(Some(unary(UnaryOperator::Negate, constant(1)))),
        Statement::ReturnStatement(Some(unary(UnaryOperator::Negate, constant(2)))),
    ]);
    let ir = lower(program_with_body(body)).unwrap().0.instruction;
    assert_eq!(ir.len(), 4);
    assert!(matches!(&ir[2], Instruction::Unary { dest, .. } if is_var(dest, "tmp.1")));
}

#[test]
fn copy_jump_and_label_selection() {
    let ir = vec![
        Instruction::Copy { src: Value::Constant(3), dest: var("a") },
        Instruction::JumpIfZero(var("a"), Identifier("end".to_string())),
        Instruction::JumpIfNotZero(var("a"), Identifier("end".to_string())),
        Instruction::Jump(Identifier("end".to_string())),
        Instruction::Label(Identifier("end".to_string())),
        Instruction::Return(var("a")),
    ];
    let tacky = TackyProgram(ulang::tacky::FunctionDefinition { identifier: "f".to_string(), instruction: ir });
    let selected = AsmProgram::from(&tacky).0.instructions;
    assert_eq!(selected.len(), 9);
    assert!(matches!(&selected[2], AsmInstruction::JmpCC(ConditionCode::E, _)));
    assert!(matches!(&selected[4], AsmInstruction::JmpCC(ConditionCode::NE, _)));
    let text = generate_assembly(&tacky, TargetPlatform::X64Linux).0;
    assert!(text.contains("\tje\t.Lend\n"));
    assert!(text.contains("\tjne\t.Lend\n"));
    assert!(text.contains("\tjmp\t.Lend\n"));
    assert!(text.contains(".Lend:\n"));
    assert!(text.contains("\tcmpl\t$0, -4(%rbp)\n"));
}

#[test]
fn operator_tables() {
    assert_eq!(BinaryOperator::Multiply.precedence(), 50);
    assert_eq!(BinaryOperator::Add.precedence(), 45);
    assert_eq!(BinaryOperator::LessThan.precedence(), 35);
    assert_eq!(BinaryOperator::Equal.precedence(), 30);
    assert_eq!(BinaryOperator::And.precedence(), 10);
    assert_eq!(BinaryOperator::Or.precedence(), 5);
    assert_eq!(UnaryOperator::from_token(&Token::Hyphen), Some(UnaryOperator::Negate));
    assert_eq!(UnaryOperator::from_token(&Token::Tilde), Some(UnaryOperator::Complement));
    assert_eq!(UnaryOperator::from_token(&Token::Not), Some(UnaryOperator::Not));
    assert_eq!(UnaryOperator::from_token(&Token::Plus), None);
    assert_eq!(BinaryOperator::from_token(&Token::LessThanEqualTo), Some(BinaryOperator::LessOrEqual));
    assert_eq!(BinaryOperator::from_token(&Token::Semicolon), None);
    assert_eq!(TackyBinaryOperator::from_binary(&BinaryOperator::And), None);
    assert_eq!(ConditionCode::from_operator(&TackyBinaryOperator::GreaterOrEqual), Some(ConditionCode::GE));
    assert_eq!(AsmBinaryOperator::from_operator(&TackyBinaryOperator::Divide), None);
}

#[test]
fn decimal_text_of_extremes() {
    let mut s = String::from("x=");
    ulang::text::append_int(&mut s, i32::MIN);
    assert_eq!(s, "x=-2147483648");
    let mut t = String::new();
    ulang::text::append_nat(&mut t, 1203);
    assert_eq!(t, "1203");
}

fn fix(code: Vec<AsmInstruction>, frame: i32) -> Vec<AsmInstruction> {
    let program = AsmProgram(AsmFunctionDef { name: "f".to_string(), instructions: code });
    AsmProgramWithFixedInstructions::from(AsmProgramWithReplacedPseudoRegisters(program, frame)).0 .0.instructions
}

#[test]
fn legalization_of_immediate_operands() {
    let out = fix(
        vec![
            AsmInstruction::Cmp(Operand::Stack(-4), Operand::Imm(5)),
            AsmInstruction::Idiv(Operand::Imm(3)),
        ],
        4,
    );
    assert_eq!(out.len(), 5);
    assert!(matches!(&out[1], AsmInstruction::Mov { src: Operand::Imm(5), dst: Operand::Register(AsmRegistry::R11) }));
    assert!(matches!(&out[2], AsmInstruction::Cmp(Operand::Stack(-4), Operand::Register(AsmRegistry::R11))));
    assert!(matches!(&out[3], AsmInstruction::Mov { src: Operand::Imm(3), dst: Operand::Register(AsmRegistry::R10) }));
    assert!(matches!(&out[4], AsmInstruction::Idiv(Operand::Register(AsmRegistry::R10))));
}

#[test]
fn legalization_of_arithmetic_on_memory() {
    let out = fix(
        vec![
            AsmInstruction::Binary(AsmBinaryOperator::Add, Operand::Stack(-4), Operand::Stack(-8)),
            AsmInstruction::Binary(AsmBinaryOperator::Mult, Operand::Imm(3), Operand::Stack(-8)),
            AsmInstruction::Binary(AsmBinaryOperator::Sub, Operand::Imm(1), Operand::Stack(-8)),
        ],
        8,
    );
    assert_eq!(out.len(), 7);
    assert!(matches!(&out[1], AsmInstruction::Mov { src: Operand::Stack(-4), dst: Operand::Register(AsmRegistry::R10) }));
    assert!(matches!(&out[2], AsmInstruction::Binary(AsmBinaryOperator::Add, Operand::Register(AsmRegistry::R10), Operand::Stack(-8))));
    assert!(matches!(&out[3], AsmInstruction::Mov { src: Operand::Stack(-8), dst: Operand::Register(AsmRegistry::R11) }));
    assert!(matches!(&out[4], AsmInstruction::Binary(AsmBinaryOperator::Mult, Operand::Imm(3), Operand::Register(AsmRegistry::R11))));
    assert!(matches!(&out[5], AsmInstruction::Mov { src: Operand::Register(AsmRegistry::R11), dst: Operand::Stack(-8) }));
    assert!(matches!(&out[6], AsmInstruction::Binary(AsmBinaryOperator::Sub, Operand::Imm(1), Operand::Stack(-8))));
}

#[test]
fn frame_size_counts_each_temporary_once() {
    let e = binary(constant(1), BinaryOperator::Add, binary(constant(2), BinaryOperator::Multiply, constant(3)));
    let tacky = lower(returning(e)).unwrap();
    let replaced = AsmProgramWithReplacedPseudoRegisters::from(AsmProgram::from(&tacky));
    assert_eq!(replaced.1, 8);
    assert!(!replaced.0 .0.instructions.iter().any(|i| match i {
        AsmInstruction::Mov { src, dst } | AsmInstruction::Cmp(src, dst) | AsmInstruction::Binary(_, src, dst) =>
            matches!(src, Operand::Pseudo(_)) || matches!(dst, Operand::Pseudo(_)),
        AsmInstruction::Unary(_, o) | AsmInstruction::Idiv(o) | AsmInstruction::SetCC(_, o) => matches!(o, Operand::Pseudo(_)),
        _ => false,
    }));
    let fixed = AsmProgramWithFixedInstructions::from(replaced);
    assert!(matches!(&fixed.0 .0.instructions[0], AsmInstruction::AllocateStack(8)));
}

#[test]
fn set_on_a_register_uses_its_low_byte() {
    let code = vec![
        AsmInstruction::SetCC(ConditionCode::NE, Operand::Register(AsmRegistry::AX)),
        AsmInstruction::Unary(ulang::assembly::AsmUnaryOperator::Neg, Operand::Register(AsmRegistry::DX)),
        AsmInstruction::Unary(ulang::assembly::AsmUnaryOperator::Complement, Operand::Stack(-12)),
        AsmInstruction::Mov { src: Operand::Pseudo(Identifier("t".to_string())), dst: Operand::Register(AsmRegistry::R11) },
    ];
    let program = AsmProgramWithFixedInstructions(AsmProgram(AsmFunctionDef { name: "g".to_string(), instructions: code }));
    let text = program.generate(TargetPlatform::X64Linux).0;
    assert_eq!(
        text,
        "\t.globl g\ng:\n\tpush\t%rbp\n\tmov\t%rsp, %rbp\n\tsetne\t%al\n\tnegl\t%edx\n\tnotl\t-12(%rbp)\n\tmovl\tPSEUDO_t, %r11d\n\t.section\t.note.GNU-stack,\"\",@progbits\n"
    );
}
