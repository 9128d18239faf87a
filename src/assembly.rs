//! Instruction selection, frame-slot allocation, legalization and emission
//! of x86-64 assembly text.
use vstd::prelude::*;

use crate::ast::{Identifier, UnaryOperator};
use crate::emit::program_text;
use crate::tacky::{
    ir_view, Instruction, InstructionView, TackyBinaryOperator, TackyProgram, Value, ValueView,
};

verus! {

#[derive(PartialEq, Eq, Structural, Debug, Clone, Copy)]
pub enum TargetPlatform {
    MacOsX64,
    X64Linux,
}

#[derive(Debug, Clone)]
pub struct AsmProgram(pub AsmFunctionDef);

/// A program whose pseudo operands were given stack slots, with the number
/// of bytes those slots take.
#[derive(Debug, Clone)]
pub struct AsmProgramWithReplacedPseudoRegisters(pub AsmProgram, pub i32);

#[derive(Debug, Clone)]
pub struct AsmProgramWithFixedInstructions(pub AsmProgram);

#[derive(Debug, Clone)]
pub struct AsmWithFixedCmp(pub AsmProgram);

#[derive(Debug, Clone)]
pub struct AsmGenerated(pub String);

#[derive(Debug, Clone)]
pub struct AsmFunctionDef {
    pub name: String,
    pub instructions: Vec<AsmInstruction>,
}

#[derive(Debug, Clone)]
pub enum AsmInstruction {
    Mov { src: Operand, dst: Operand },
    Unary(AsmUnaryOperator, Operand),
    Cmp(Operand, Operand),
    AllocateStack(i32),
    Binary(AsmBinaryOperator, Operand, Operand),
    Idiv(Operand),
    Cdq,
    Jmp(Identifier),
    JmpCC(ConditionCode, Identifier),
    SetCC(ConditionCode, Operand),
    Label(Identifier),
    Return,
}

#[derive(Debug, Clone, Copy, PartialEq, Eq, Structural)]
pub enum ConditionCode {
    E,
    NE,
    G,
    GE,
    L,
    LE,
}

#[derive(Debug, Clone, Copy, PartialEq, Eq, Structural)]
pub enum AsmUnaryOperator {
    Neg,
    Complement,
}

#[derive(Debug, Clone, Copy, PartialEq, Eq, Structural)]
pub enum AsmBinaryOperator {
    Add,
    Sub,
    Mult,
}

#[derive(Debug, Clone)]
pub enum Operand {
    Register(AsmRegistry),
    Imm(i32),
    Stack(i32),
    Pseudo(Identifier),
}

#[derive(Debug, Clone, Copy, PartialEq, Eq, Structural)]
pub enum AsmRegistry {
    AX,
    DX,
    R10,
    R11,
}

/// What an `Operand` denotes, with a pseudo register named by its characters.
pub enum OperandView {
    Register(AsmRegistry),
    Imm(i32),
    Stack(i32),
    Pseudo(Seq<char>),
}

/// What an `AsmInstruction` denotes.
pub enum AsmView {
    Mov(OperandView, OperandView),
    Unary(AsmUnaryOperator, OperandView),
    Cmp(OperandView, OperandView),
    AllocateStack(i32),
    Binary(AsmBinaryOperator, OperandView, OperandView),
    Idiv(OperandView),
    Cdq,
    Jmp(Seq<char>),
    JmpCC(ConditionCode, Seq<char>),
    SetCC(ConditionCode, OperandView),
    Label(Seq<char>),
    Return,
}

impl View for Operand {
    type V = OperandView;

    open spec fn view(&self) -> OperandView {
        match self {
            Operand::Register(r) => OperandView::Register(*r),
            Operand::Imm(i) => OperandView::Imm(*i),
            Operand::Stack(i) => OperandView::Stack(*i),
            Operand::Pseudo(id) => OperandView::Pseudo(id@),
        }
    }
}

impl View for AsmInstruction {
    type V = AsmView;

    open spec fn view(&self) -> AsmView {
        match self {
            AsmInstruction::Mov { src, dst } => AsmView::Mov(src@, dst@),
            AsmInstruction::Unary(op, o) => AsmView::Unary(*op, o@),
            AsmInstruction::Cmp(a, b) => AsmView::Cmp(a@, b@),
            AsmInstruction::AllocateStack(n) => AsmView::AllocateStack(*n),
            AsmInstruction::Binary(op, a, b) => AsmView::Binary(*op, a@, b@),
            AsmInstruction::Idiv(o) => AsmView::Idiv(o@),
            AsmInstruction::Cdq => AsmView::Cdq,
            AsmInstruction::Jmp(l) => AsmView::Jmp(l@),
            AsmInstruction::JmpCC(cc, l) => AsmView::JmpCC(*cc, l@),
            AsmInstruction::SetCC(cc, o) => AsmView::SetCC(*cc, o@),
            AsmInstruction::Label(l) => AsmView::Label(l@),
            AsmInstruction::Return => AsmView::Return,
        }
    }
}

/// The views of a list of assembly instructions.
pub open spec fn asm_view(s: Seq<AsmInstruction>) -> Seq<AsmView> {
    s.map_values(|i: AsmInstruction| i@)
}

// ---------------------------------------------------------------------
// Instruction selection
// ---------------------------------------------------------------------

/// The condition code of an IR comparison, `None` for the other operators.
pub open spec fn condition_of(op: TackyBinaryOperator) -> Option<ConditionCode> {
    match op {
        TackyBinaryOperator::LessThan => Some(ConditionCode::L),
        TackyBinaryOperator::LessOrEqual => Some(ConditionCode::LE),
        TackyBinaryOperator::GreaterThan => Some(ConditionCode::G),
        TackyBinaryOperator::GreaterOrEqual => Some(ConditionCode::GE),
        TackyBinaryOperator::Equal => Some(ConditionCode::E),
        TackyBinaryOperator::NotEqual => Some(ConditionCode::NE),
        _ => None,
    }
}

/// The in-place arithmetic instruction of an IR operator, if it has one.
pub open spec fn arithmetic_of(op: TackyBinaryOperator) -> Option<AsmBinaryOperator> {
    match op {
        TackyBinaryOperator::Add => Some(AsmBinaryOperator::Add),
        TackyBinaryOperator::Substract => Some(AsmBinaryOperator::Sub),
        TackyBinaryOperator::Multiply => Some(AsmBinaryOperator::Mult),
        _ => None,
    }
}

impl ConditionCode {
    pub fn from_operator(op: &TackyBinaryOperator) -> (r: Option<Self>)
        ensures
            r == condition_of(*op),
    {
        match op {
            TackyBinaryOperator::LessThan => Some(ConditionCode::L),
            TackyBinaryOperator::LessOrEqual => Some(ConditionCode::LE),
            TackyBinaryOperator::GreaterThan => Some(ConditionCode::G),
            TackyBinaryOperator::GreaterOrEqual => Some(ConditionCode::GE),
            TackyBinaryOperator::Equal => Some(ConditionCode::E),
            TackyBinaryOperator::NotEqual => Some(ConditionCode::NE),
            _ => None,
        }
    }
}

impl AsmBinaryOperator {
    pub fn from_operator(op: &TackyBinaryOperator) -> (r: Option<Self>)
        ensures
            r == arithmetic_of(*op),
    {
        match op {
            TackyBinaryOperator::Add => Some(AsmBinaryOperator::Add),
            TackyBinaryOperator::Substract => Some(AsmBinaryOperator::Sub),
            TackyBinaryOperator::Multiply => Some(AsmBinaryOperator::Mult),
            _ => None,
        }
    }
}

/// The operand that reads an IR value.
pub open spec fn operand_of(v: ValueView) -> OperandView {
    match v {
        ValueView::Constant(c) => OperandView::Imm(c),
        ValueView::Var(n) => OperandView::Pseudo(n),
    }
}

pub open spec fn reg(r: AsmRegistry) -> OperandView {
    OperandView::Register(r)
}

/// Selection for a binary IR instruction `dest = a op b`.
pub open spec fn select_binary(
    op: TackyBinaryOperator,
    a: OperandView,
    b: OperandView,
    d: OperandView,
) -> Seq<AsmView> {
    if op == TackyBinaryOperator::Divide {
        seq![
            AsmView::Mov(a, reg(AsmRegistry::AX)),
            AsmView::Cdq,
            AsmView::Idiv(b),
            AsmView::Mov(reg(AsmRegistry::AX), d),
        ]
    } else if op == TackyBinaryOperator::Remainder {
        seq![
            AsmView::Mov(a, reg(AsmRegistry::AX)),
            AsmView::Cdq,
            AsmView::Idiv(b),
            AsmView::Mov(reg(AsmRegistry::DX), d),
        ]
    } else if condition_of(op) is Some {
        seq![
            AsmView::Cmp(b, a),
            AsmView::Mov(OperandView::Imm(0), d),
            AsmView::SetCC(condition_of(op)->Some_0, d),
        ]
    } else {
        seq![AsmView::Mov(a, d), AsmView::Binary(arithmetic_of(op)->Some_0, b, d)]
    }
}

/// Selection for a unary IR instruction `dest = op src`.
pub open spec fn select_unary(op: UnaryOperator, s: OperandView, d: OperandView) -> Seq<AsmView> {
    match op {
        UnaryOperator::Not => seq![
            AsmView::Cmp(OperandView::Imm(0), s),
            AsmView::Mov(OperandView::Imm(0), d),
            AsmView::SetCC(ConditionCode::E, d),
        ],
        UnaryOperator::Negate => seq![AsmView::Mov(s, d), AsmView::Unary(AsmUnaryOperator::Neg, d)],
        UnaryOperator::Complement => seq![
            AsmView::Mov(s, d),
            AsmView::Unary(AsmUnaryOperator::Complement, d),
        ],
    }
}

/// The pseudo-assembly that one IR instruction selects.
pub open spec fn select(i: InstructionView) -> Seq<AsmView> {
    match i {
        InstructionView::Return(v) => seq![
            AsmView::Mov(operand_of(v), reg(AsmRegistry::AX)),
            AsmView::Return,
        ],
        InstructionView::Unary(op, s, d) => select_unary(op, operand_of(s), operand_of(d)),
        InstructionView::Binary(op, a, b, d) => select_binary(
            op,
            operand_of(a),
            operand_of(b),
            operand_of(d),
        ),
        InstructionView::Copy(s, d) => seq![AsmView::Mov(operand_of(s), operand_of(d))],
        InstructionView::Jump(l) => seq![AsmView::Jmp(l)],
        InstructionView::JumpIfZero(v, l) => seq![
            AsmView::Cmp(OperandView::Imm(0), operand_of(v)),
            AsmView::JmpCC(ConditionCode::E, l),
        ],
        InstructionView::JumpIfNotZero(v, l) => seq![
            AsmView::Cmp(OperandView::Imm(0), operand_of(v)),
            AsmView::JmpCC(ConditionCode::NE, l),
        ],
        InstructionView::Label(l) => seq![AsmView::Label(l)],
    }
}

/// Selection of a whole IR instruction list, in order.
pub open spec fn select_all(s: Seq<InstructionView>) -> Seq<AsmView>
    decreases s.len(),
{
    if s.len() == 0 {
        seq![]
    } else {
        select_all(s.drop_last()) + select(s.last())
    }
}

fn operand_from(v: &Value) -> (r: Operand)
    ensures
        r@ == operand_of(v@),
{
    match v {
        Value::Constant(c) => Operand::Imm(*c),
        Value::Var(id) => Operand::Pseudo(Identifier(id.0.clone())),
    }
}

impl AsmFunctionDef {
    /// Appends the pseudo-assembly selected for one IR instruction.
    fn parse_instruction(&mut self, instruction: &Instruction)
        ensures
            final(self).name@ == old(self).name@,
            asm_view(final(self).instructions@) == asm_view(old(self).instructions@) + select(
                instruction@,
            ),
    {
        let ghost before = self.instructions@;
        match instruction {
            Instruction::Jump(id) => {
                self.instructions.push(AsmInstruction::Jmp(Identifier(id.0.clone())));
            },
            Instruction::Label(id) => {
                self.instructions.push(AsmInstruction::Label(Identifier(id.0.clone())));
            },
            Instruction::JumpIfZero(val, id) => {
                self.instructions.push(AsmInstruction::Cmp(Operand::Imm(0), operand_from(val)));
                self.instructions.push(
                    AsmInstruction::JmpCC(ConditionCode::E, Identifier(id.0.clone())),
                );
            },
            Instruction::JumpIfNotZero(val, id) => {
                self.instructions.push(AsmInstruction::Cmp(Operand::Imm(0), operand_from(val)));
                self.instructions.push(
                    AsmInstruction::JmpCC(ConditionCode::NE, Identifier(id.0.clone())),
                );
            },
            Instruction::Binary { operator, src1, src2, dest } => {
                self.parse_binary(operator, src1, src2, dest);
            },
            Instruction::Return(value) => {
                self.instructions.push(
                    AsmInstruction::Mov {
                        src: operand_from(value),
                        dst: Operand::Register(AsmRegistry::AX),
                    },
                );
                self.instructions.push(AsmInstruction::Return);
            },
            Instruction::Unary { operator, src, dest } => match operator {
                UnaryOperator::Not => {
                    self.instructions.push(AsmInstruction::Cmp(Operand::Imm(0), operand_from(src)));
                    self.instructions.push(
                        AsmInstruction::Mov { src: Operand::Imm(0), dst: operand_from(dest) },
                    );
                    self.instructions.push(
                        AsmInstruction::SetCC(ConditionCode::E, operand_from(dest)),
                    );
                },
                UnaryOperator::Negate => {
                    self.instructions.push(
                        AsmInstruction::Mov { src: operand_from(src), dst: operand_from(dest) },
                    );
                    self.instructions.push(
                        AsmInstruction::Unary(AsmUnaryOperator::Neg, operand_from(dest)),
                    );
                },
                UnaryOperator::Complement => {
                    self.instructions.push(
                        AsmInstruction::Mov { src: operand_from(src), dst: operand_from(dest) },
                    );
                    self.instructions.push(
                        AsmInstruction::Unary(AsmUnaryOperator::Complement, operand_from(dest)),
                    );
                },
            },
            Instruction::Copy { src, dest } => {
                self.instructions.push(
                    AsmInstruction::Mov { src: operand_from(src), dst: operand_from(dest) },
                );
            },
        }
        assert(asm_view(self.instructions@) =~= asm_view(before) + select(instruction@));
    }

    fn parse_binary(
        &mut self,
        operator: &TackyBinaryOperator,
        src1: &Value,
        src2: &Value,
        dest: &Value,
    )
        ensures
            final(self).name@ == old(self).name@,
            asm_view(final(self).instructions@) == asm_view(old(self).instructions@)
                + select_binary(*operator, operand_of(src1@), operand_of(src2@), operand_of(dest@)),
    {
        let ghost before = self.instructions@;
        match operator {
            TackyBinaryOperator::Divide | TackyBinaryOperator::Remainder => {
                self.instructions.push(
                    AsmInstruction::Mov {
                        src: operand_from(src1),
                        dst: Operand::Register(AsmRegistry::AX),
                    },
                );
                self.instructions.push(AsmInstruction::Cdq);
                self.instructions.push(AsmInstruction::Idiv(operand_from(src2)));
                let out = match operator {
                    TackyBinaryOperator::Divide => AsmRegistry::AX,
                    _ => AsmRegistry::DX,
                };
                self.instructions.push(
                    AsmInstruction::Mov { src: Operand::Register(out), dst: operand_from(dest) },
                );
            },
            o => {
                if let Some(condition_code) = ConditionCode::from_operator(o) {
                    self.instructions.push(
                        AsmInstruction::Cmp(operand_from(src2), operand_from(src1)),
                    );
                    self.instructions.push(
                        AsmInstruction::Mov { src: Operand::Imm(0), dst: operand_from(dest) },
                    );
                    self.instructions.push(
                        AsmInstruction::SetCC(condition_code, operand_from(dest)),
                    );
                } else {
                    let arith = match AsmBinaryOperator::from_operator(o) {
                        Some(a) => a,
                        None => AsmBinaryOperator::Add,
                    };
                    self.instructions.push(
                        AsmInstruction::Mov { src: operand_from(src1), dst: operand_from(dest) },
                    );
                    self.instructions.push(
                        AsmInstruction::Binary(arith, operand_from(src2), operand_from(dest)),
                    );
                }
            },
        }
        assert(asm_view(self.instructions@) =~= asm_view(before) + select_binary(
            *operator,
            operand_of(src1@),
            operand_of(src2@),
            operand_of(dest@),
        ));
    }
}

impl AsmProgram {
    /// Instruction selection for a whole IR program.
    pub fn from(value: &TackyProgram) -> (r: AsmProgram)
        ensures
            r.0.name@ == value.0.identifier@,
            asm_view(r.0.instructions@) == select_all(ir_view(value.0.instruction@)),
    {
        let tacky_function = &value.0;
        let mut function_def = AsmFunctionDef {
            name: tacky_function.identifier.clone(),
            instructions: Vec::new(),
        };
        let mut i: usize = 0;
        while i < tacky_function.instruction.len()
            invariant
                i <= tacky_function.instruction.len(),
                function_def.name@ == tacky_function.identifier@,
                asm_view(function_def.instructions@) == select_all(
                    ir_view(tacky_function.instruction@.take(i as int)),
                ),
            decreases tacky_function.instruction.len() - i,
        {
            proof {
                let s = ir_view(tacky_function.instruction@.take(i as int + 1));
                assert(s.drop_last() =~= ir_view(tacky_function.instruction@.take(i as int)));
                assert(s.last() == tacky_function.instruction@[i as int]@);
            }
            function_def.parse_instruction(&tacky_function.instruction[i]);
            i = i + 1;
        }
        assert(tacky_function.instruction@.take(i as int) =~= tacky_function.instruction@);
        AsmProgram(function_def)
    }
}

// ---------------------------------------------------------------------
// Frame-slot allocation
// ---------------------------------------------------------------------

/// Bytes of one frame slot: the size of the modelled 32-bit integer.
pub const SLOT_SIZE: i32 = 4;

/// Most frame slots one function can hold, so that every offset fits in `i32`.
pub const MAX_SLOTS: usize = 536870911;

/// Most pseudo-assembly instructions the allocator takes in one function.
pub const MAX_FUNCTION_INSTRUCTIONS: usize = 268435455;

/// Offset from the frame base of the slot numbered `k`.
pub open spec fn slot_offset(k: int) -> int {
    -4 * (k + 1)
}

/// Index of the slot of `n` among the allocated names, or -1 if it has none.
pub open spec fn slot_index(names: Seq<Seq<char>>, n: Seq<char>) -> int
    decreases names.len(),
{
    if names.len() == 0 {
        -1
    } else if names.last() == n {
        names.len() - 1
    } else {
        slot_index(names.drop_last(), n)
    }
}

/// Looks up the slot of `n`, giving it the next free slot on first use:
/// the names afterwards and the offset.
pub open spec fn alloc_name(names: Seq<Seq<char>>, n: Seq<char>) -> (Seq<Seq<char>>, int) {
    if slot_index(names, n) >= 0 {
        (names, slot_offset(slot_index(names, n)))
    } else {
        (names.push(n), slot_offset(names.len() as int))
    }
}

/// Replaces a pseudo operand by its stack slot; other operands stay.
pub open spec fn alloc_operand(names: Seq<Seq<char>>, o: OperandView) -> (Seq<Seq<char>>, OperandView) {
    match o {
        OperandView::Pseudo(n) => (
            alloc_name(names, n).0,
            OperandView::Stack(alloc_name(names, n).1 as i32),
        ),
        _ => (names, o),
    }
}

/// Allocation of the operands of one instruction, source before destination.
pub open spec fn alloc_instr(names: Seq<Seq<char>>, i: AsmView) -> (Seq<Seq<char>>, AsmView) {
    match i {
        AsmView::Mov(a, b) => {
            let (m1, a1) = alloc_operand(names, a);
            let (m2, b1) = alloc_operand(m1, b);
            (m2, AsmView::Mov(a1, b1))
        },
        AsmView::Cmp(a, b) => {
            let (m1, a1) = alloc_operand(names, a);
            let (m2, b1) = alloc_operand(m1, b);
            (m2, AsmView::Cmp(a1, b1))
        },
        AsmView::Binary(op, a, b) => {
            let (m1, a1) = alloc_operand(names, a);
            let (m2, b1) = alloc_operand(m1, b);
            (m2, AsmView::Binary(op, a1, b1))
        },
        AsmView::Unary(op, a) => {
            let (m1, a1) = alloc_operand(names, a);
            (m1, AsmView::Unary(op, a1))
        },
        AsmView::SetCC(cc, a) => {
            let (m1, a1) = alloc_operand(names, a);
            (m1, AsmView::SetCC(cc, a1))
        },
        AsmView::Idiv(a) => {
            let (m1, a1) = alloc_operand(names, a);
            (m1, AsmView::Idiv(a1))
        },
        _ => (names, i),
    }
}

/// Allocation over an instruction list, left to right.
pub open spec fn alloc_all(names: Seq<Seq<char>>, s: Seq<AsmView>) -> (Seq<Seq<char>>, Seq<AsmView>)
    decreases s.len(),
{
    if s.len() == 0 {
        (names, seq![])
    } else {
        let (m1, out) = alloc_all(names, s.drop_last());
        let (m2, last) = alloc_instr(m1, s.last());
        (m2, out.push(last))
    }
}

/// Whether an instruction still has a pseudo operand.
pub open spec fn uses_pseudo(i: AsmView) -> bool {
    match i {
        AsmView::Mov(a, b) => a is Pseudo || b is Pseudo,
        AsmView::Cmp(a, b) => a is Pseudo || b is Pseudo,
        AsmView::Binary(_, a, b) => a is Pseudo || b is Pseudo,
        AsmView::Unary(_, a) => a is Pseudo,
        AsmView::Idiv(a) => a is Pseudo,
        AsmView::SetCC(_, a) => a is Pseudo,
        _ => false,
    }
}

proof fn lemma_alloc_all_no_pseudo(names: Seq<Seq<char>>, s: Seq<AsmView>)
    ensures
        alloc_all(names, s).1.len() == s.len(),
        forall|k: int|
            0 <= k < s.len() ==> !uses_pseudo(#[trigger] alloc_all(names, s).1[k]),
    decreases s.len(),
{
    if s.len() > 0 {
        lemma_alloc_all_no_pseudo(names, s.drop_last());
        let out = alloc_all(names, s).1;
        let front = alloc_all(names, s.drop_last()).1;
        assert forall|k: int| 0 <= k < s.len() implies !uses_pseudo(#[trigger] out[k]) by {
            if k < s.len() - 1 {
                assert(out[k] == front[k]);
            }
        }
    }
}

/// The frame map of one allocation pass: the temporaries that have a slot,
/// in the order they got it, and the running offset counter.
pub struct PseudoRegistryHash {
    slots: Vec<String>,
    counter: i32,
}

impl View for PseudoRegistryHash {
    type V = Seq<Seq<char>>;

    closed spec fn view(&self) -> Seq<Seq<char>> {
        self.slots@.map_values(|s: String| s@)
    }
}

impl PseudoRegistryHash {
    /// The counter sits at the offset of the last slot handed out.
    pub closed spec fn wf(&self) -> bool {
        &&& self.slots@.len() <= MAX_SLOTS
        &&& self.counter == -4 * self.slots@.len()
    }

    pub fn new() -> (r: Self)
        ensures
            r.wf(),
            r@ == Seq::<Seq<char>>::empty(),
    {
        let r = PseudoRegistryHash { slots: Vec::new(), counter: 0 };
        assert(r@ =~= Seq::<Seq<char>>::empty());
        r
    }

    /// The stack offset of `id`: the slot it already has, or a fresh one
    /// below all others. Asking again for a name gives the same offset and
    /// leaves the map as it is.
    pub fn get(&mut self, id: &Identifier) -> (r: i32)
        requires
            old(self).wf(),
            old(self)@.len() < MAX_SLOTS,
        ensures
            final(self).wf(),
            (final(self)@, r as int) == alloc_name(old(self)@, id@),
            slot_index(old(self)@, id@) >= 0 ==> final(self)@ == old(self)@ && r == slot_offset(
                slot_index(old(self)@, id@),
            ),
    {
        let ghost names = self@;
        let mut k: usize = self.slots.len();
        assert(names.take(k as int) =~= names);
        while k > 0
            invariant
                k <= self.slots.len(),
                self.wf(),
                names == self@,
                names.len() == self.slots@.len(),
                slot_index(names, id@) == slot_index(names.take(k as int), id@),
            decreases k,
        {
            proof {
                assert(names.take(k as int).drop_last() =~= names.take(k as int - 1));
            }
            k = k - 1;
            if self.slots[k] == id.0 {
                return -4 * (k as i32 + 1);
            }
        }
        self.counter = self.counter - 4;
        self.slots.push(id.0.clone());
        assert(self@ =~= names.push(id@));
        self.counter
    }

    /// Bytes taken by the slots handed out so far.
    pub fn stack_to_allocate(&self) -> (r: i32)
        requires
            self.wf(),
        ensures
            r == 4 * self@.len(),
    {
        -self.counter
    }
}

fn copy_identifier(id: &Identifier) -> (r: Identifier)
    ensures
        r@ == id@,
{
    Identifier(id.0.clone())
}

fn replace_operand(hasher: &mut PseudoRegistryHash, o: &Operand) -> (r: Operand)
    requires
        old(hasher).wf(),
        old(hasher)@.len() < MAX_SLOTS,
    ensures
        final(hasher).wf(),
        (final(hasher)@, r@) == alloc_operand(old(hasher)@, o@),
        final(hasher)@.len() <= old(hasher)@.len() + 1,
{
    match o {
        Operand::Pseudo(id) => Operand::Stack(hasher.get(id)),
        Operand::Register(r) => Operand::Register(*r),
        Operand::Imm(i) => Operand::Imm(*i),
        Operand::Stack(i) => Operand::Stack(*i),
    }
}

fn replace_instruction(hasher: &mut PseudoRegistryHash, i: &AsmInstruction) -> (r: AsmInstruction)
    requires
        old(hasher).wf(),
        old(hasher)@.len() + 1 < MAX_SLOTS,
    ensures
        final(hasher).wf(),
        (final(hasher)@, r@) == alloc_instr(old(hasher)@, i@),
        final(hasher)@.len() <= old(hasher)@.len() + 2,
{
    match i {
        AsmInstruction::Mov { src, dst } => {
            let s = replace_operand(hasher, src);
            let d = replace_operand(hasher, dst);
            AsmInstruction::Mov { src: s, dst: d }
        },
        AsmInstruction::Cmp(a, b) => {
            let s = replace_operand(hasher, a);
            let d = replace_operand(hasher, b);
            AsmInstruction::Cmp(s, d)
        },
        AsmInstruction::Binary(op, a, b) => {
            let s = replace_operand(hasher, a);
            let d = replace_operand(hasher, b);
            AsmInstruction::Binary(*op, s, d)
        },
        AsmInstruction::Unary(op, a) => AsmInstruction::Unary(*op, replace_operand(hasher, a)),
        AsmInstruction::SetCC(cc, a) => AsmInstruction::SetCC(*cc, replace_operand(hasher, a)),
        AsmInstruction::Idiv(a) => AsmInstruction::Idiv(replace_operand(hasher, a)),
        AsmInstruction::AllocateStack(n) => AsmInstruction::AllocateStack(*n),
        AsmInstruction::Cdq => AsmInstruction::Cdq,
        AsmInstruction::Jmp(l) => AsmInstruction::Jmp(copy_identifier(l)),
        AsmInstruction::JmpCC(cc, l) => AsmInstruction::JmpCC(*cc, copy_identifier(l)),
        AsmInstruction::Label(l) => AsmInstruction::Label(copy_identifier(l)),
        AsmInstruction::Return => AsmInstruction::Return,
    }
}

impl AsmProgramWithReplacedPseudoRegisters {
    /// Gives every pseudo operand a stack slot, in order of first use, and
    /// records the bytes the slots take.
    pub fn from(value: AsmProgram) -> (r: Self)
        requires
            value.0.instructions@.len() <= MAX_FUNCTION_INSTRUCTIONS,
        ensures
            r.0.0.name@ == value.0.name@,
            asm_view(r.0.0.instructions@) == alloc_all(
                seq![],
                asm_view(value.0.instructions@),
            ).1,
            r.1 == 4 * alloc_all(seq![], asm_view(value.0.instructions@)).0.len(),
            forall|k: int|
                0 <= k < r.0.0.instructions@.len() ==> !uses_pseudo(
                    #[trigger] r.0.0.instructions@[k]@,
                ),
    {
        let mut hasher = PseudoRegistryHash::new();
        let mut instructions: Vec<AsmInstruction> = Vec::new();
        let ghost input = asm_view(value.0.instructions@);
        let mut i: usize = 0;
        while i < value.0.instructions.len()
            invariant
                i <= value.0.instructions.len(),
                value.0.instructions@.len() <= MAX_FUNCTION_INSTRUCTIONS,
                input == asm_view(value.0.instructions@),
                hasher.wf(),
                hasher@.len() <= 2 * i,
                hasher@ == alloc_all(seq![], input.take(i as int)).0,
                asm_view(instructions@) == alloc_all(seq![], input.take(i as int)).1,
            decreases value.0.instructions.len() - i,
        {
            proof {
                assert(input.take(i as int + 1).drop_last() =~= input.take(i as int));
            }
            let ghost before = instructions@;
            let next = replace_instruction(&mut hasher, &value.0.instructions[i]);
            instructions.push(next);
            proof {
                assert(asm_view(instructions@) =~= asm_view(before).push(next@));
            }
            i = i + 1;
        }
        assert(input.take(i as int) =~= input);
        proof {
            lemma_alloc_all_no_pseudo(seq![], input);
            assert forall|k: int| 0 <= k < instructions@.len() implies !uses_pseudo(
                #[trigger] instructions@[k]@,
            ) by {
                assert(instructions@[k]@ == asm_view(instructions@)[k]);
            }
        }
        let size = hasher.stack_to_allocate();
        AsmProgramWithReplacedPseudoRegisters(
            AsmProgram(AsmFunctionDef { name: value.0.name, instructions }),
            size,
        )
    }
}

// ---------------------------------------------------------------------
// Legalization
// ---------------------------------------------------------------------

/// Whether an instruction respects the operand constraints of x86-64:
/// no move, compare or add/subtract between two memory operands, no
/// immediate as the operand compared against, no immediate divisor, and no
/// memory destination for a multiplication.
pub open spec fn is_legal(i: AsmView) -> bool {
    match i {
        AsmView::Mov(a, b) => !(a is Stack && b is Stack),
        AsmView::Cmp(a, b) => !(a is Stack && b is Stack) && !(b is Imm),
        AsmView::Idiv(a) => !(a is Imm),
        AsmView::Binary(op, a, b) => if op == AsmBinaryOperator::Mult {
            !(b is Stack)
        } else {
            !(a is Stack && b is Stack)
        },
        _ => true,
    }
}

/// The rewrite of one instruction through the scratch registers: R10 holds
/// a source, R11 a destination. Legal instructions stay as they are.
pub open spec fn legalize(i: AsmView) -> Seq<AsmView> {
    let r10 = reg(AsmRegistry::R10);
    let r11 = reg(AsmRegistry::R11);
    match i {
        AsmView::Mov(a, b) => if a is Stack && b is Stack {
            seq![AsmView::Mov(a, r10), AsmView::Mov(r10, b)]
        } else {
            seq![i]
        },
        AsmView::Cmp(a, b) => if a is Stack && b is Stack {
            seq![AsmView::Mov(a, r10), AsmView::Cmp(r10, b)]
        } else if b is Imm {
            seq![AsmView::Mov(b, r11), AsmView::Cmp(a, r11)]
        } else {
            seq![i]
        },
        AsmView::Idiv(a) => if a is Imm {
            seq![AsmView::Mov(a, r10), AsmView::Idiv(r10)]
        } else {
            seq![i]
        },
        AsmView::Binary(op, a, b) => if op == AsmBinaryOperator::Mult && b is Stack {
            seq![AsmView::Mov(b, r11), AsmView::Binary(op, a, r11), AsmView::Mov(r11, b)]
        } else if op != AsmBinaryOperator::Mult && a is Stack && b is Stack {
            seq![AsmView::Mov(a, r10), AsmView::Binary(op, r10, b)]
        } else {
            seq![i]
        },
        _ => seq![i],
    }
}

/// Legalization of an instruction list, in order.
pub open spec fn legalize_all(s: Seq<AsmView>) -> Seq<AsmView>
    decreases s.len(),
{
    if s.len() == 0 {
        seq![]
    } else {
        legalize_all(s.drop_last()) + legalize(s.last())
    }
}

/// The legalized body of a function: the frame reservation, then each
/// instruction rewritten.
pub open spec fn fix_instructions(frame: i32, s: Seq<AsmView>) -> Seq<AsmView> {
    seq![AsmView::AllocateStack(frame)] + legalize_all(s)
}

proof fn lemma_legalize_legal(i: AsmView)
    ensures
        forall|k: int| 0 <= k < legalize(i).len() ==> is_legal(#[trigger] legalize(i)[k]),
{
}

proof fn lemma_legalize_all_legal(s: Seq<AsmView>)
    ensures
        forall|k: int| 0 <= k < legalize_all(s).len() ==> is_legal(#[trigger] legalize_all(s)[k]),
    decreases s.len(),
{
    if s.len() > 0 {
        lemma_legalize_all_legal(s.drop_last());
        lemma_legalize_legal(s.last());
        let a = legalize_all(s.drop_last());
        let b = legalize(s.last());
        assert forall|k: int| 0 <= k < legalize_all(s).len() implies is_legal(
            #[trigger] legalize_all(s)[k],
        ) by {
            if k < a.len() {
                assert(legalize_all(s)[k] == a[k]);
            } else {
                assert(legalize_all(s)[k] == b[k - a.len()]);
            }
        }
    }
}

fn copy_operand(o: &Operand) -> (r: Operand)
    ensures
        r@ == o@,
{
    match o {
        Operand::Pseudo(id) => Operand::Pseudo(copy_identifier(id)),
        Operand::Register(r) => Operand::Register(*r),
        Operand::Imm(i) => Operand::Imm(*i),
        Operand::Stack(i) => Operand::Stack(*i),
    }
}

fn copy_asm(i: &AsmInstruction) -> (r: AsmInstruction)
    ensures
        r@ == i@,
{
    match i {
        AsmInstruction::Mov { src, dst } => AsmInstruction::Mov {
            src: copy_operand(src),
            dst: copy_operand(dst),
        },
        AsmInstruction::Cmp(a, b) => AsmInstruction::Cmp(copy_operand(a), copy_operand(b)),
        AsmInstruction::Binary(op, a, b) => AsmInstruction::Binary(
            *op,
            copy_operand(a),
            copy_operand(b),
        ),
        AsmInstruction::Unary(op, a) => AsmInstruction::Unary(*op, copy_operand(a)),
        AsmInstruction::SetCC(cc, a) => AsmInstruction::SetCC(*cc, copy_operand(a)),
        AsmInstruction::Idiv(a) => AsmInstruction::Idiv(copy_operand(a)),
        AsmInstruction::AllocateStack(n) => AsmInstruction::AllocateStack(*n),
        AsmInstruction::Cdq => AsmInstruction::Cdq,
        AsmInstruction::Jmp(l) => AsmInstruction::Jmp(copy_identifier(l)),
        AsmInstruction::JmpCC(cc, l) => AsmInstruction::JmpCC(*cc, copy_identifier(l)),
        AsmInstruction::Label(l) => AsmInstruction::Label(copy_identifier(l)),
        AsmInstruction::Return => AsmInstruction::Return,
    }
}

fn is_stack(o: &Operand) -> (r: bool)
    ensures
        r == (o@ is Stack),
{
    match o {
        Operand::Stack(_) => true,
        _ => false,
    }
}

fn is_imm(o: &Operand) -> (r: bool)
    ensures
        r == (o@ is Imm),
{
    match o {
        Operand::Imm(_) => true,
        _ => false,
    }
}

/// Appends the legal form of `i` to `out`.
fn legalize_instruction(out: &mut Vec<AsmInstruction>, i: &AsmInstruction)
    ensures
        asm_view(final(out)@) == asm_view(old(out)@) + legalize(i@),
{
    let ghost before = out@;
    let r10 = AsmRegistry::R10;
    let r11 = AsmRegistry::R11;
    match i {
        AsmInstruction::Mov { src, dst } if is_stack(src) && is_stack(dst) => {
            out.push(AsmInstruction::Mov { src: copy_operand(src), dst: Operand::Register(r10) });
            out.push(AsmInstruction::Mov { src: Operand::Register(r10), dst: copy_operand(dst) });
        },
        AsmInstruction::Cmp(a, b) if is_stack(a) && is_stack(b) => {
            out.push(AsmInstruction::Mov { src: copy_operand(a), dst: Operand::Register(r10) });
            out.push(AsmInstruction::Cmp(Operand::Register(r10), copy_operand(b)));
        },
        AsmInstruction::Cmp(a, b) if is_imm(b) => {
            out.push(AsmInstruction::Mov { src: copy_operand(b), dst: Operand::Register(r11) });
            out.push(AsmInstruction::Cmp(copy_operand(a), Operand::Register(r11)));
        },
        AsmInstruction::Idiv(a) if is_imm(a) => {
            out.push(AsmInstruction::Mov { src: copy_operand(a), dst: Operand::Register(r10) });
            out.push(AsmInstruction::Idiv(Operand::Register(r10)));
        },
        AsmInstruction::Binary(AsmBinaryOperator::Mult, a, b) if is_stack(b) => {
            out.push(AsmInstruction::Mov { src: copy_operand(b), dst: Operand::Register(r11) });
            out.push(
                AsmInstruction::Binary(AsmBinaryOperator::Mult, copy_operand(a), Operand::Register(r11)),
            );
            out.push(AsmInstruction::Mov { src: Operand::Register(r11), dst: copy_operand(b) });
        },
        AsmInstruction::Binary(op, a, b) if !matches!(op, AsmBinaryOperator::Mult) && is_stack(a)
            && is_stack(b) => {
            out.push(AsmInstruction::Mov { src: copy_operand(a), dst: Operand::Register(r10) });
            out.push(AsmInstruction::Binary(*op, Operand::Register(r10), copy_operand(b)));
        },
        _ => {
            out.push(copy_asm(i));
        },
    }
    assert(asm_view(out@) =~= asm_view(before) + legalize(i@));
}

impl AsmProgramWithFixedInstructions {
    /// Reserves the frame and rewrites every instruction into legal form.
    pub fn from(value: AsmProgramWithReplacedPseudoRegisters) -> (r: Self)
        ensures
            r.0.0.name@ == value.0.0.name@,
            asm_view(r.0.0.instructions@) == fix_instructions(
                value.1,
                asm_view(value.0.0.instructions@),
            ),
            forall|k: int|
                0 <= k < r.0.0.instructions@.len() ==> is_legal(#[trigger] r.0.0.instructions@[k]@),
    {
        let source = &value.0.0.instructions;
        let mut instructions: Vec<AsmInstruction> = Vec::new();
        instructions.push(AsmInstruction::AllocateStack(value.1));
        let ghost input = asm_view(source@);
        let mut i: usize = 0;
        while i < source.len()
            invariant
                i <= source.len(),
                input == asm_view(source@),
                asm_view(instructions@) == fix_instructions(value.1, input.take(i as int)),
            decreases source.len() - i,
        {
            proof {
                assert(input.take(i as int + 1).drop_last() =~= input.take(i as int));
            }
            legalize_instruction(&mut instructions, &source[i]);
            proof {
                assert(fix_instructions(value.1, input.take(i as int + 1)) =~= fix_instructions(
                    value.1,
                    input.take(i as int),
                ) + legalize(input[i as int]));
            }
            i = i + 1;
        }
        assert(input.take(i as int) =~= input);
        proof {
            lemma_legalize_all_legal(input);
            let f = fix_instructions(value.1, input);
            assert forall|k: int| 0 <= k < instructions@.len() implies is_legal(
                #[trigger] instructions@[k]@,
            ) by {
                assert(instructions@[k]@ == asm_view(instructions@)[k]);
                if k > 0 {
                    assert(f[k] == legalize_all(input)[k - 1]);
                }
            }
        }
        AsmProgramWithFixedInstructions(
            AsmProgram(AsmFunctionDef { name: value.0.0.name, instructions }),
        )
    }
}

// ---------------------------------------------------------------------
// The whole back end
// ---------------------------------------------------------------------

/// Most IR instructions one function can have for the back end.
pub const MAX_IR_INSTRUCTIONS: usize = 67108863;

/// The legalized assembly of an IR function body: selection, then slot
/// allocation, then legalization behind the frame reservation.
pub open spec fn assemble(ir: Seq<InstructionView>) -> Seq<AsmView> {
    let allocated = alloc_all(seq![], select_all(ir));
    fix_instructions((4 * allocated.0.len()) as i32, allocated.1)
}

pub(crate) proof fn lemma_select_all_len(s: Seq<InstructionView>)
    ensures
        select_all(s).len() <= 4 * s.len(),
    decreases s.len(),
{
    if s.len() > 0 {
        lemma_select_all_len(s.drop_last());
    }
}

/// Compiles an IR program to assembly text for `target`.
pub fn generate_assembly(tacky: &TackyProgram, target: TargetPlatform) -> (r: AsmGenerated)
    requires
        tacky.0.instruction@.len() <= MAX_IR_INSTRUCTIONS,
    ensures
        r.0@ == program_text(target, tacky.0.identifier@, assemble(ir_view(tacky.0.instruction@))),
{
    proof {
        lemma_select_all_len(ir_view(tacky.0.instruction@));
    }
    let asm_ast = AsmProgram::from(tacky);
    let asm_replaced = AsmProgramWithReplacedPseudoRegisters::from(asm_ast);
    let asm_fixed = AsmProgramWithFixedInstructions::from(asm_replaced);
    asm_fixed.generate(target)
}

/// Allocating a name a second time gives the offset it got the first time
/// and hands out no new slot.
pub proof fn lemma_alloc_idempotent(names: Seq<Seq<char>>, n: Seq<char>)
    ensures
        alloc_name(alloc_name(names, n).0, n) == alloc_name(names, n),
{
    if slot_index(names, n) < 0 {
        assert(names.push(n).drop_last() =~= names);
    }
}

} // verus!
