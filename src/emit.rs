//! Rendering of a legalized instruction list as assembly text.
use vstd::prelude::*;

use crate::assembly::{
    asm_view, AsmBinaryOperator, AsmGenerated, AsmInstruction, AsmProgramWithFixedInstructions,
    AsmRegistry, AsmUnaryOperator, AsmView, ConditionCode, Operand, OperandView, TargetPlatform,
};
use crate::assembly::{alloc_all, assemble, fix_instructions, legalize_all, select_all};
use crate::ast::{Expression, Factor, Statement};
use crate::tacky::{lower_body, InstructionView, ValueView};
use crate::text::{append_int, int_text};

verus! {

pub open spec fn register_text(r: AsmRegistry) -> Seq<char> {
    match r {
        AsmRegistry::AX => "%eax"@,
        AsmRegistry::DX => "%edx"@,
        AsmRegistry::R10 => "%r10d"@,
        AsmRegistry::R11 => "%r11d"@,
    }
}

/// The one-byte name of a register, as a conditional set writes it.
pub open spec fn byte_register_text(r: AsmRegistry) -> Seq<char> {
    match r {
        AsmRegistry::AX => "%al"@,
        AsmRegistry::DX => "%dl"@,
        AsmRegistry::R10 => "%r10b"@,
        AsmRegistry::R11 => "%r11b"@,
    }
}

pub open spec fn operand_text(o: OperandView) -> Seq<char> {
    match o {
        OperandView::Register(r) => register_text(r),
        OperandView::Imm(i) => "$"@ + int_text(i as int),
        OperandView::Stack(i) => int_text(i as int) + "(%rbp)"@,
        OperandView::Pseudo(n) => "PSEUDO_"@ + n,
    }
}

pub open spec fn byte_operand_text(o: OperandView) -> Seq<char> {
    match o {
        OperandView::Register(r) => byte_register_text(r),
        _ => operand_text(o),
    }
}

pub open spec fn condition_text(cc: ConditionCode) -> Seq<char> {
    match cc {
        ConditionCode::E => "e"@,
        ConditionCode::NE => "ne"@,
        ConditionCode::G => "g"@,
        ConditionCode::GE => "ge"@,
        ConditionCode::L => "l"@,
        ConditionCode::LE => "le"@,
    }
}

pub open spec fn unary_text(op: AsmUnaryOperator) -> Seq<char> {
    match op {
        AsmUnaryOperator::Neg => "negl"@,
        AsmUnaryOperator::Complement => "notl"@,
    }
}

pub open spec fn binary_text(op: AsmBinaryOperator) -> Seq<char> {
    match op {
        AsmBinaryOperator::Add => "addl"@,
        AsmBinaryOperator::Sub => "subl"@,
        AsmBinaryOperator::Mult => "imull"@,
    }
}

/// Restores the caller's frame and returns.
pub open spec fn epilogue_text() -> Seq<char> {
    "\tmovq\t%rbp, %rsp\n\tpopq\t%rbp\n\tret\n"@
}

/// The line (or lines, for a return) that one instruction renders to.
pub open spec fn instruction_text(i: AsmView) -> Seq<char> {
    match i {
        AsmView::Mov(a, b) => "\tmovl\t"@ + operand_text(a) + ", "@ + operand_text(b) + "\n"@,
        AsmView::Unary(op, a) => "\t"@ + unary_text(op) + "\t"@ + operand_text(a) + "\n"@,
        AsmView::Cmp(a, b) => "\tcmpl\t"@ + operand_text(a) + ", "@ + operand_text(b) + "\n"@,
        AsmView::AllocateStack(n) => "\tsubq $"@ + int_text(n as int) + ", %rsp\n"@,
        AsmView::Binary(op, a, b) => "\t"@ + binary_text(op) + "\t"@ + operand_text(a) + ", "@
            + operand_text(b) + "\n"@,
        AsmView::Idiv(a) => "\tidivl\t"@ + operand_text(a) + "\n"@,
        AsmView::Cdq => "\tcdq\n"@,
        AsmView::Jmp(l) => "\tjmp\t.L"@ + l + "\n"@,
        AsmView::JmpCC(cc, l) => "\tj"@ + condition_text(cc) + "\t.L"@ + l + "\n"@,
        AsmView::SetCC(cc, a) => "\tset"@ + condition_text(cc) + "\t"@ + byte_operand_text(a)
            + "\n"@,
        AsmView::Label(l) => ".L"@ + l + ":\n"@,
        AsmView::Return => epilogue_text(),
    }
}

/// The text of an instruction list, one rendering after another.
pub open spec fn body_text(s: Seq<AsmView>) -> Seq<char>
    decreases s.len(),
{
    if s.len() == 0 {
        seq![]
    } else {
        body_text(s.drop_last()) + instruction_text(s.last())
    }
}

/// The symbol of a function: macOS prefixes an underscore.
pub open spec fn symbol_text(platform: TargetPlatform, name: Seq<char>) -> Seq<char> {
    match platform {
        TargetPlatform::MacOsX64 => "_"@ + name,
        TargetPlatform::X64Linux => name,
    }
}

/// Declaration and definition of the symbol, then the fixed prologue.
pub open spec fn header_text(platform: TargetPlatform, name: Seq<char>) -> Seq<char> {
    "\t.globl "@ + symbol_text(platform, name) + "\n"@ + symbol_text(platform, name) + ":\n"@
        + "\tpush\t%rbp\n\tmov\t%rsp, %rbp\n"@
}

/// What follows the function: Linux marks the stack non-executable.
pub open spec fn footer_text(platform: TargetPlatform) -> Seq<char> {
    match platform {
        TargetPlatform::MacOsX64 => seq![],
        TargetPlatform::X64Linux => "\t.section\t.note.GNU-stack,\"\",@progbits\n"@,
    }
}

/// The assembly text of a whole function.
pub open spec fn program_text(platform: TargetPlatform, name: Seq<char>, s: Seq<AsmView>) -> Seq<
    char,
> {
    header_text(platform, name) + body_text(s) + footer_text(platform)
}

fn append_register(out: &mut String, r: AsmRegistry)
    ensures
        final(out)@ == old(out)@ + register_text(r),
{
    match r {
        AsmRegistry::AX => out.append("%eax"),
        AsmRegistry::DX => out.append("%edx"),
        AsmRegistry::R10 => out.append("%r10d"),
        AsmRegistry::R11 => out.append("%r11d"),
    }
}

fn append_operand(out: &mut String, o: &Operand)
    ensures
        final(out)@ == old(out)@ + operand_text(o@),
{
    match o {
        Operand::Register(r) => append_register(out, *r),
        Operand::Imm(i) => {
            out.append("$");
            append_int(out, *i);
            assert(out@ =~= old(out)@ + operand_text(o@));
        },
        Operand::Stack(i) => {
            append_int(out, *i);
            out.append("(%rbp)");
            assert(out@ =~= old(out)@ + operand_text(o@));
        },
        Operand::Pseudo(id) => {
            out.append("PSEUDO_");
            out.append(id.0.as_str());
            assert(out@ =~= old(out)@ + operand_text(o@));
        },
    }
}

fn append_byte_operand(out: &mut String, o: &Operand)
    ensures
        final(out)@ == old(out)@ + byte_operand_text(o@),
{
    match o {
        Operand::Register(AsmRegistry::AX) => out.append("%al"),
        Operand::Register(AsmRegistry::DX) => out.append("%dl"),
        Operand::Register(AsmRegistry::R10) => out.append("%r10b"),
        Operand::Register(AsmRegistry::R11) => out.append("%r11b"),
        _ => append_operand(out, o),
    }
}

fn append_condition(out: &mut String, cc: ConditionCode)
    ensures
        final(out)@ == old(out)@ + condition_text(cc),
{
    match cc {
        ConditionCode::E => out.append("e"),
        ConditionCode::NE => out.append("ne"),
        ConditionCode::G => out.append("g"),
        ConditionCode::GE => out.append("ge"),
        ConditionCode::L => out.append("l"),
        ConditionCode::LE => out.append("le"),
    }
}

/// Appends `"\t<mnemonic>\t<a>, <b>\n"`.
fn append_two_operands(out: &mut String, a: &Operand, b: &Operand)
    ensures
        final(out)@ == old(out)@ + operand_text(a@) + ", "@ + operand_text(b@) + "\n"@,
{
    append_operand(out, a);
    out.append(", ");
    append_operand(out, b);
    out.append("\n");
    assert(out@ =~= old(out)@ + operand_text(a@) + ", "@ + operand_text(b@) + "\n"@);
}

fn append_instruction(out: &mut String, i: &AsmInstruction)
    ensures
        final(out)@ == old(out)@ + instruction_text(i@),
{
    match i {
        AsmInstruction::Mov { src, dst } => {
            out.append("\tmovl\t");
            append_two_operands(out, src, dst);
        },
        AsmInstruction::Unary(op, a) => {
            out.append("\t");
            match op {
                AsmUnaryOperator::Neg => out.append("negl"),
                AsmUnaryOperator::Complement => out.append("notl"),
            }
            out.append("\t");
            append_operand(out, a);
            out.append("\n");
        },
        AsmInstruction::Cmp(a, b) => {
            out.append("\tcmpl\t");
            append_two_operands(out, a, b);
        },
        AsmInstruction::AllocateStack(n) => {
            out.append("\tsubq $");
            append_int(out, *n);
            out.append(", %rsp\n");
        },
        AsmInstruction::Binary(op, a, b) => {
            out.append("\t");
            match op {
                AsmBinaryOperator::Add => out.append("addl"),
                AsmBinaryOperator::Sub => out.append("subl"),
                AsmBinaryOperator::Mult => out.append("imull"),
            }
            out.append("\t");
            append_two_operands(out, a, b);
        },
        AsmInstruction::Idiv(a) => {
            out.append("\tidivl\t");
            append_operand(out, a);
            out.append("\n");
        },
        AsmInstruction::Cdq => out.append("\tcdq\n"),
        AsmInstruction::Jmp(l) => {
            out.append("\tjmp\t.L");
            out.append(l.0.as_str());
            out.append("\n");
        },
        AsmInstruction::JmpCC(cc, l) => {
            out.append("\tj");
            append_condition(out, *cc);
            out.append("\t.L");
            out.append(l.0.as_str());
            out.append("\n");
        },
        AsmInstruction::SetCC(cc, a) => {
            out.append("\tset");
            append_condition(out, *cc);
            out.append("\t");
            append_byte_operand(out, a);
            out.append("\n");
        },
        AsmInstruction::Label(l) => {
            out.append(".L");
            out.append(l.0.as_str());
            out.append(":\n");
        },
        AsmInstruction::Return => out.append("\tmovq\t%rbp, %rsp\n\tpopq\t%rbp\n\tret\n"),
    }
    assert(out@ =~= old(out)@ + instruction_text(i@));
}

fn append_symbol(out: &mut String, platform: TargetPlatform, name: &String)
    ensures
        final(out)@ == old(out)@ + symbol_text(platform, name@),
{
    if platform == TargetPlatform::MacOsX64 {
        out.append("_");
    }
    out.append(name.as_str());
    assert(out@ =~= old(out)@ + symbol_text(platform, name@));
}

impl AsmProgramWithFixedInstructions {
    /// Renders the function as assembly text for `platform`.
    pub fn generate(&self, platform: TargetPlatform) -> (r: AsmGenerated)
        ensures
            r.0@ == program_text(platform, self.0.0.name@, asm_view(self.0.0.instructions@)),
    {
        let function_def = &self.0.0;
        let mut result = String::new();
        result.append("\t.globl ");
        append_symbol(&mut result, platform, &function_def.name);
        result.append("\n");
        append_symbol(&mut result, platform, &function_def.name);
        result.append(":\n");
        result.append("\tpush\t%rbp\n\tmov\t%rsp, %rbp\n");
        assert(result@ =~= header_text(platform, function_def.name@));
        let ghost input = asm_view(function_def.instructions@);
        let mut i: usize = 0;
        while i < function_def.instructions.len()
            invariant
                i <= function_def.instructions.len(),
                input == asm_view(function_def.instructions@),
                result@ == header_text(platform, function_def.name@) + body_text(
                    input.take(i as int),
                ),
            decreases function_def.instructions.len() - i,
        {
            proof {
                assert(input.take(i as int + 1).drop_last() =~= input.take(i as int));
            }
            append_instruction(&mut result, &function_def.instructions[i]);
            i = i + 1;
            assert(result@ =~= header_text(platform, function_def.name@) + body_text(
                input.take(i as int),
            ));
        }
        assert(input.take(i as int) =~= input);
        if platform == TargetPlatform::X64Linux {
            result.append("\t.section\t.note.GNU-stack,\"\",@progbits\n");
        }
        assert(result@ =~= program_text(platform, function_def.name@, input));
        AsmGenerated(result)
    }
}

/// The two platforms render the same instruction lines: they differ only
/// in the underscore before the symbol and in the stack note that ends the
/// Linux text.
pub proof fn lemma_platforms_share_body(name: Seq<char>, s: Seq<AsmView>)
    ensures
        program_text(TargetPlatform::MacOsX64, name, s) == "\t.globl _"@ + name + "\n_"@ + name
            + ":\n\tpush\t%rbp\n\tmov\t%rsp, %rbp\n"@ + body_text(s),
        program_text(TargetPlatform::X64Linux, name, s) == "\t.globl "@ + name + "\n"@ + name
            + ":\n\tpush\t%rbp\n\tmov\t%rsp, %rbp\n"@ + body_text(s)
            + "\t.section\t.note.GNU-stack,\"\",@progbits\n"@,
{
    reveal_strlit("\t.globl _");
    reveal_strlit("\t.globl ");
    reveal_strlit("_");
    reveal_strlit("\n_");
    reveal_strlit("\n");
    reveal_strlit(":\n");
    reveal_strlit("\tpush\t%rbp\n\tmov\t%rsp, %rbp\n");
    reveal_strlit(":\n\tpush\t%rbp\n\tmov\t%rsp, %rbp\n");
    assert(program_text(TargetPlatform::MacOsX64, name, s) =~= "\t.globl _"@ + name + "\n_"@
        + name + ":\n\tpush\t%rbp\n\tmov\t%rsp, %rbp\n"@ + body_text(s));
    assert(program_text(TargetPlatform::X64Linux, name, s) =~= "\t.globl "@ + name + "\n"@ + name
        + ":\n\tpush\t%rbp\n\tmov\t%rsp, %rbp\n"@ + body_text(s)
        + "\t.section\t.note.GNU-stack,\"\",@progbits\n"@);
}

/// `return c;` lowers to one IR return of the constant, and compiles to the
/// prologue, an empty frame, a move of `c` into the accumulator and the
/// epilogue: a text fixed by the platform, the name and `c` alone.
pub proof fn lemma_constant_return(platform: TargetPlatform, name: Seq<char>, c: i32)
    ensures
        lower_body(Statement::ReturnStatement(Some(Expression::Factor(Factor::Constant(c)))))
            == Some(seq![InstructionView::Return(ValueView::Constant(c))]),
        program_text(platform, name, assemble(seq![InstructionView::Return(ValueView::Constant(c))]))
            == header_text(platform, name) + "\tsubq $0, %rsp\n\tmovl\t$"@ + int_text(c as int)
            + ", %eax\n"@ + epilogue_text() + footer_text(platform),
{
    let ir = seq![InstructionView::Return(ValueView::Constant(c))];
    assert(ir.drop_last() =~= Seq::<InstructionView>::empty());
    let sel = select_all(ir);
    assert(select_all(ir.drop_last()) =~= Seq::<AsmView>::empty());
    assert(sel =~= seq![
        AsmView::Mov(OperandView::Imm(c), OperandView::Register(AsmRegistry::AX)),
        AsmView::Return,
    ]);
    assert(sel.drop_last().drop_last() =~= Seq::<AsmView>::empty());
    assert(sel.drop_last() =~= seq![sel[0]]);
    let allocated = alloc_all(seq![], sel);
    assert(alloc_all(seq![], sel.drop_last().drop_last()) == (Seq::<Seq<char>>::empty(), Seq::<AsmView>::empty()));
    assert(alloc_all(seq![], sel.drop_last()).1 =~= seq![sel[0]]);
    assert(allocated.0 =~= Seq::<Seq<char>>::empty());
    assert(allocated.1 =~= sel);
    assert(legalize_all(sel.drop_last().drop_last()) =~= Seq::<AsmView>::empty());
    assert(legalize_all(sel.drop_last()) =~= seq![sel[0]]);
    assert(legalize_all(sel) =~= sel);
    let fixed = fix_instructions(0, sel);
    assert(fixed =~= seq![AsmView::AllocateStack(0)] + sel);
    assert(fixed.drop_last().drop_last().drop_last() =~= Seq::<AsmView>::empty());
    assert(fixed.drop_last().drop_last() =~= seq![fixed[0]]);
    assert(fixed.drop_last() =~= seq![fixed[0], fixed[1]]);
    reveal_strlit("\tsubq $");
    reveal_strlit(", %rsp\n");
    reveal_strlit("\tmovl\t");
    reveal_strlit("$");
    reveal_strlit(", ");
    reveal_strlit("%eax");
    reveal_strlit("\n");
    reveal_strlit("\tsubq $0, %rsp\n\tmovl\t$");
    reveal_strlit(", %eax\n");
    assert(int_text(0) =~= seq!['0']);
    assert(body_text(fixed.drop_last().drop_last().drop_last()) =~= Seq::<char>::empty());
    assert(body_text(fixed.drop_last().drop_last()) =~= "\tsubq $0, %rsp\n"@) by {
        reveal_strlit("\tsubq $0, %rsp\n");
    }
    assert(body_text(fixed.drop_last()) =~= "\tsubq $0, %rsp\n\tmovl\t$"@ + int_text(c as int)
        + ", %eax\n"@) by {
        reveal_strlit("\tsubq $0, %rsp\n");
    }
    assert(body_text(fixed) =~= "\tsubq $0, %rsp\n\tmovl\t$"@ + int_text(c as int) + ", %eax\n"@
        + epilogue_text());
    assert(program_text(platform, name, assemble(ir)) =~= header_text(platform, name)
        + "\tsubq $0, %rsp\n\tmovl\t$"@ + int_text(c as int) + ", %eax\n"@ + epilogue_text()
        + footer_text(platform));
}

} // verus!
