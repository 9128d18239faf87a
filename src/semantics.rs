//! Reference semantics: the IR's operators over 32-bit two's-complement
//! integers, and a machine that runs pseudo-assembly.
use vstd::prelude::*;

use crate::assembly::{
    alloc_all, alloc_instr, assemble, select_all, alloc_name, alloc_operand, condition_of, legalize, legalize_all, reg,
    select, slot_index, slot_offset, AsmBinaryOperator, MAX_SLOTS, AsmRegistry, AsmUnaryOperator, AsmView, ConditionCode,
    OperandView, operand_of,
};
use crate::assembly::{lemma_select_all_len, MAX_IR_INSTRUCTIONS};
use crate::ast::{Expression, Factor, Statement, UnaryOperator};
use crate::tacky::{lower, lower_body, tacky_of, tmp_name, InstructionView, TackyBinaryOperator, ValueView, lemma_tmp_names_distinct};
use vstd::math::abs;

verus! {

pub open spec fn fits_i32(x: int) -> bool {
    i32::MIN <= x <= i32::MAX
}

/// `x` reduced to 32 bits and read back as a signed integer.
pub open spec fn wrap32(x: int) -> int {
    let m = x % 4294967296;
    if m >= 2147483648 {
        m - 4294967296
    } else {
        m
    }
}

/// Quotient rounded toward zero.
#[verifier::opaque]
pub open spec fn trunc_div(a: int, b: int) -> int {
    let q: int = abs(a) as int / abs(b) as int;
    if (a < 0) != (b < 0) {
        -q
    } else {
        q
    }
}

/// Remainder of the quotient rounded toward zero: it has the dividend's sign.
#[verifier::opaque]
pub open spec fn trunc_rem(a: int, b: int) -> int {
    a - b * trunc_div(a, b)
}

pub open spec fn bool_value(b: bool) -> int {
    if b {
        1
    } else {
        0
    }
}

/// The value of `a op b` in 32-bit signed arithmetic; `None` where the
/// operation traps (a zero divisor, or a quotient that does not fit).
pub open spec fn ir_binary(op: TackyBinaryOperator, a: int, b: int) -> Option<int> {
    match op {
        TackyBinaryOperator::Add => Some(wrap32(a + b)),
        TackyBinaryOperator::Substract => Some(wrap32(a - b)),
        TackyBinaryOperator::Multiply => Some(wrap32(a * b)),
        TackyBinaryOperator::Divide => if b == 0 || !fits_i32(trunc_div(a, b)) {
            None
        } else {
            Some(trunc_div(a, b))
        },
        TackyBinaryOperator::Remainder => if b == 0 || !fits_i32(trunc_div(a, b)) {
            None
        } else {
            Some(trunc_rem(a, b))
        },
        TackyBinaryOperator::Equal => Some(bool_value(a == b)),
        TackyBinaryOperator::NotEqual => Some(bool_value(a != b)),
        TackyBinaryOperator::LessThan => Some(bool_value(a < b)),
        TackyBinaryOperator::LessOrEqual => Some(bool_value(a <= b)),
        TackyBinaryOperator::GreaterThan => Some(bool_value(a > b)),
        TackyBinaryOperator::GreaterOrEqual => Some(bool_value(a >= b)),
    }
}

/// Registers, stack slots by offset, pseudo registers by name, and the two
/// values of the last comparison (the operand compared, then the one
/// compared against).
pub struct MachineState {
    pub regs: Map<AsmRegistry, int>,
    pub stack: Map<int, int>,
    pub pseudo: Map<Seq<char>, int>,
    pub flags: (int, int),
}

pub open spec fn read(s: MachineState, o: OperandView) -> int {
    match o {
        OperandView::Register(r) => s.regs[r],
        OperandView::Imm(c) => c as int,
        OperandView::Stack(off) => s.stack[off as int],
        OperandView::Pseudo(n) => s.pseudo[n],
    }
}

/// Writes `v` to `o`; an immediate cannot be written.
pub open spec fn write(s: MachineState, o: OperandView, v: int) -> Option<MachineState> {
    match o {
        OperandView::Register(r) => Some(MachineState { regs: s.regs.insert(r, v), ..s }),
        OperandView::Imm(_) => None,
        OperandView::Stack(off) => Some(MachineState { stack: s.stack.insert(off as int, v), ..s }),
        OperandView::Pseudo(n) => Some(MachineState { pseudo: s.pseudo.insert(n, v), ..s }),
    }
}

/// Whether a condition holds of the flags that `cmp a, b` set, comparing `b` with `a`.
pub open spec fn condition_holds(cc: ConditionCode, flags: (int, int)) -> bool {
    let (b, a) = flags;
    match cc {
        ConditionCode::E => b == a,
        ConditionCode::NE => b != a,
        ConditionCode::G => b > a,
        ConditionCode::GE => b >= a,
        ConditionCode::L => b < a,
        ConditionCode::LE => b <= a,
    }
}

/// The 64-bit dividend that `EDX:EAX` holds.
pub open spec fn dividend(s: MachineState) -> int {
    s.regs[AsmRegistry::DX] * 4294967296 + s.regs[AsmRegistry::AX] % 4294967296
}

/// One step of straight-line code; `None` where the machine traps or the
/// instruction transfers control.
pub open spec fn step(s: MachineState, i: AsmView) -> Option<MachineState> {
    match i {
        AsmView::Mov(a, b) => write(s, b, read(s, a)),
        AsmView::Unary(AsmUnaryOperator::Neg, a) => write(s, a, wrap32(-read(s, a))),
        AsmView::Unary(AsmUnaryOperator::Complement, a) => write(s, a, -read(s, a) - 1),
        AsmView::Binary(AsmBinaryOperator::Add, a, b) => write(s, b, wrap32(read(s, b) + read(s, a))),
        AsmView::Binary(AsmBinaryOperator::Sub, a, b) => write(s, b, wrap32(read(s, b) - read(s, a))),
        AsmView::Binary(AsmBinaryOperator::Mult, a, b) => write(s, b, wrap32(read(s, b) * read(s, a))),
        AsmView::Cmp(a, b) => Some(MachineState { flags: (read(s, b), read(s, a)), ..s }),
        AsmView::Cdq => Some(
            MachineState {
                regs: s.regs.insert(
                    AsmRegistry::DX,
                    if s.regs[AsmRegistry::AX] < 0 {
                        -1
                    } else {
                        0
                    },
                ),
                ..s
            },
        ),
        AsmView::Idiv(a) => {
            let d = read(s, a);
            let n = dividend(s);
            if d == 0 || !fits_i32(trunc_div(n, d)) {
                None
            } else {
                Some(
                    MachineState {
                        regs: s.regs.insert(AsmRegistry::AX, trunc_div(n, d)).insert(
                            AsmRegistry::DX,
                            trunc_rem(n, d),
                        ),
                        ..s
                    },
                )
            }
        },
        AsmView::SetCC(cc, a) => {
            let old = read(s, a);
            write(s, a, old - old % 256 + bool_value(condition_holds(cc, s.flags)))
        },
        AsmView::AllocateStack(_) => Some(s),
        AsmView::Label(_) => Some(s),
        _ => None,
    }
}

/// Runs straight-line code from `s`.
pub open spec fn run(s: MachineState, code: Seq<AsmView>) -> Option<MachineState>
    decreases code.len(),
{
    if code.len() == 0 {
        Some(s)
    } else {
        let front = run(s, code.drop_last());
        if front is None {
            None
        } else {
            step(front->Some_0, code.last())
        }
    }
}

/// The value an IR value has in a machine state.
pub open spec fn value_in(s: MachineState, v: ValueView) -> int {
    read(s, operand_of(v))
}

pub open spec fn reads_other_than(v: ValueView, d: Seq<char>) -> bool {
    v != ValueView::Var(d)
}

proof fn lemma_run_prefix(s: MachineState, code: Seq<AsmView>, k: int)
    requires
        0 < k <= code.len(),
        run(s, code.take(k - 1)) is Some,
    ensures
        run(s, code.take(k)) == step(run(s, code.take(k - 1))->Some_0, code[k - 1]),
{
    assert(code.take(k).drop_last() =~= code.take(k - 1));
}

/// `cdq` sign-extends: `EDX:EAX` then holds the value `EAX` held.
proof fn lemma_sign_extension(v: int)
    requires
        fits_i32(v),
    ensures
        (if v < 0 {
            -1int
        } else {
            0int
        }) * 4294967296 + v % 4294967296 == v,
{
    if v < 0 {
        assert(v % 4294967296 == v + 4294967296);
    } else {
        assert(v % 4294967296 == v);
    }
}

proof fn lemma_division_selection(s: MachineState, op: TackyBinaryOperator, a: ValueView, b: ValueView, d: Seq<char>)
    requires
        op == TackyBinaryOperator::Divide || op == TackyBinaryOperator::Remainder,
        fits_i32(value_in(s, a)),
        reads_other_than(b, d),
        ir_binary(op, value_in(s, a), value_in(s, b)) is Some,
    ensures
        run(s, select(InstructionView::Binary(op, a, b, ValueView::Var(d)))) is Some,
        run(s, select(InstructionView::Binary(op, a, b, ValueView::Var(d))))->Some_0.pseudo
            == s.pseudo.insert(d, ir_binary(op, value_in(s, a), value_in(s, b))->Some_0),
{
    let code = select(InstructionView::Binary(op, a, b, ValueView::Var(d)));
    let va = value_in(s, a);
    let vb = value_in(s, b);
    assert(code.take(0) =~= Seq::<AsmView>::empty());
    assert(run(s, code.take(0)) == Some(s));
    lemma_run_prefix(s, code, 1);
    let s1 = step(s, code[0])->Some_0;
    assert(s1.regs[AsmRegistry::AX] == va);
    lemma_run_prefix(s, code, 2);
    let s2 = step(s1, code[1])->Some_0;
    lemma_sign_extension(va);
    assert(dividend(s2) == va);
    assert(read(s2, operand_of(b)) == vb);
    lemma_run_prefix(s, code, 3);
    let s3 = step(s2, code[2])->Some_0;
    assert(s3.pseudo == s.pseudo);
    lemma_run_prefix(s, code, 4);
    assert(code.take(4) =~= code);
}

proof fn lemma_arithmetic_selection(s: MachineState, op: TackyBinaryOperator, a: ValueView, b: ValueView, d: Seq<char>)
    requires
        op == TackyBinaryOperator::Add || op == TackyBinaryOperator::Substract || op
            == TackyBinaryOperator::Multiply,
        reads_other_than(b, d),
    ensures
        run(s, select(InstructionView::Binary(op, a, b, ValueView::Var(d)))) is Some,
        run(s, select(InstructionView::Binary(op, a, b, ValueView::Var(d))))->Some_0.pseudo
            == s.pseudo.insert(d, ir_binary(op, value_in(s, a), value_in(s, b))->Some_0),
{
    let code = select(InstructionView::Binary(op, a, b, ValueView::Var(d)));
    let vb = value_in(s, b);
    assert(code.take(0) =~= Seq::<AsmView>::empty());
    assert(run(s, code.take(0)) == Some(s));
    lemma_run_prefix(s, code, 1);
    let s1 = step(s, code[0])->Some_0;
    assert(read(s1, operand_of(b)) == vb);
    lemma_run_prefix(s, code, 2);
    assert(code.take(2) =~= code);
    assert(s1.pseudo.insert(d, ir_binary(op, value_in(s, a), vb)->Some_0) =~= s.pseudo.insert(
        d,
        ir_binary(op, value_in(s, a), vb)->Some_0,
    ));
}

proof fn lemma_comparison_selection(s: MachineState, op: TackyBinaryOperator, a: ValueView, b: ValueView, d: Seq<char>)
    requires
        condition_of(op) is Some,
    ensures
        run(s, select(InstructionView::Binary(op, a, b, ValueView::Var(d)))) is Some,
        run(s, select(InstructionView::Binary(op, a, b, ValueView::Var(d))))->Some_0.pseudo
            == s.pseudo.insert(d, ir_binary(op, value_in(s, a), value_in(s, b))->Some_0),
{
    let code = select(InstructionView::Binary(op, a, b, ValueView::Var(d)));
    let va = value_in(s, a);
    let vb = value_in(s, b);
    assert(code.take(0) =~= Seq::<AsmView>::empty());
    assert(run(s, code.take(0)) == Some(s));
    lemma_run_prefix(s, code, 1);
    let s1 = step(s, code[0])->Some_0;
    assert(s1.flags == (va, vb));
    lemma_run_prefix(s, code, 2);
    let s2 = step(s1, code[1])->Some_0;
    lemma_run_prefix(s, code, 3);
    assert(code.take(3) =~= code);
    assert(s2.pseudo.insert(d, ir_binary(op, va, vb)->Some_0) =~= s.pseudo.insert(
        d,
        ir_binary(op, va, vb)->Some_0,
    ));
}

/// For every binary IR instruction `d = a op b` whose result is defined,
/// the code selected for it leaves in `d` the value that 32-bit signed
/// arithmetic gives (division rounding toward zero, remainder with the
/// dividend's sign), and changes no other pseudo register.
pub proof fn lemma_binary_selection_computes(
    s: MachineState,
    op: TackyBinaryOperator,
    a: ValueView,
    b: ValueView,
    d: Seq<char>,
)
    requires
        fits_i32(value_in(s, a)),
        reads_other_than(b, d),
        ir_binary(op, value_in(s, a), value_in(s, b)) is Some,
    ensures
        run(s, select(InstructionView::Binary(op, a, b, ValueView::Var(d)))) is Some,
        run(s, select(InstructionView::Binary(op, a, b, ValueView::Var(d))))->Some_0.pseudo
            == s.pseudo.insert(d, ir_binary(op, value_in(s, a), value_in(s, b))->Some_0),
{
    if op == TackyBinaryOperator::Divide || op == TackyBinaryOperator::Remainder {
        lemma_division_selection(s, op, a, b, d);
    } else if op == TackyBinaryOperator::Add || op == TackyBinaryOperator::Substract || op
        == TackyBinaryOperator::Multiply {
        lemma_arithmetic_selection(s, op, a, b, d);
    } else {
        lemma_comparison_selection(s, op, a, b, d);
    }
}

proof fn lemma_run_append(s: MachineState, c1: Seq<AsmView>, c2: Seq<AsmView>)
    ensures
        run(s, c1 + c2) == (if run(s, c1) is None {
            None
        } else {
            run(run(s, c1)->Some_0, c2)
        }),
    decreases c2.len(),
{
    if c2.len() == 0 {
        assert(c1 + c2 =~= c1);
    } else {
        assert((c1 + c2).drop_last() =~= c1 + c2.drop_last());
        lemma_run_append(s, c1, c2.drop_last());
    }
}

proof fn lemma_run_short(s: MachineState, code: Seq<AsmView>)
    requires
        1 <= code.len() <= 3,
    ensures
        code.len() == 1 ==> run(s, code) == step(s, code[0]),
        code.len() == 2 ==> run(s, code) == (if step(s, code[0]) is None {
            None
        } else {
            step(step(s, code[0])->Some_0, code[1])
        }),
        code.len() == 3 ==> run(s, code) == (if step(s, code[0]) is None {
            None
        } else if step(step(s, code[0])->Some_0, code[1]) is None {
            None
        } else {
            step(step(step(s, code[0])->Some_0, code[1])->Some_0, code[2])
        }),
{
    assert(code.take(0) =~= Seq::<AsmView>::empty());
    assert(run(s, code.take(0)) == Some(s));
    lemma_run_prefix(s, code, 1);
    if code.len() >= 2 {
        assert(code.take(2).drop_last() =~= code.take(1));
        if run(s, code.take(1)) is Some {
            lemma_run_prefix(s, code, 2);
        }
    }
    if code.len() >= 3 {
        assert(code.take(3).drop_last() =~= code.take(2));
        if run(s, code.take(2)) is Some {
            lemma_run_prefix(s, code, 3);
        }
    }
    assert(code.take(code.len() as int) =~= code);
}

/// Whether an operand is one of the scratch registers of legalization.
pub open spec fn is_scratch(o: OperandView) -> bool {
    o == reg(AsmRegistry::R10) || o == reg(AsmRegistry::R11)
}

/// Whether an instruction names a scratch register.
pub open spec fn uses_scratch(i: AsmView) -> bool {
    match i {
        AsmView::Mov(a, b) => is_scratch(a) || is_scratch(b),
        AsmView::Cmp(a, b) => is_scratch(a) || is_scratch(b),
        AsmView::Binary(_, a, b) => is_scratch(a) || is_scratch(b),
        AsmView::Unary(_, a) => is_scratch(a),
        AsmView::Idiv(a) => is_scratch(a),
        AsmView::SetCC(_, a) => is_scratch(a),
        _ => false,
    }
}

/// Two states that differ at most in the scratch registers.
pub open spec fn agree_but_scratch(s: MachineState, t: MachineState) -> bool {
    &&& s.stack == t.stack
    &&& s.pseudo == t.pseudo
    &&& s.flags == t.flags
    &&& s.regs[AsmRegistry::AX] == t.regs[AsmRegistry::AX]
    &&& s.regs[AsmRegistry::DX] == t.regs[AsmRegistry::DX]
}

proof fn lemma_agree_reads(s: MachineState, t: MachineState, o: OperandView)
    requires
        agree_but_scratch(s, t),
        !is_scratch(o),
    ensures
        read(s, o) == read(t, o),
{
}

proof fn lemma_agree_writes(s: MachineState, t: MachineState, o: OperandView, v: int)
    requires
        agree_but_scratch(s, t),
    ensures
        write(s, o, v) is Some == write(t, o, v) is Some,
        write(s, o, v) is Some ==> agree_but_scratch(write(s, o, v)->Some_0, write(t, o, v)->Some_0),
{
}

proof fn lemma_legalize_simulates(s: MachineState, t: MachineState, i: AsmView)
    requires
        agree_but_scratch(s, t),
        !uses_scratch(i),
        step(s, i) is Some,
    ensures
        run(t, legalize(i)) is Some,
        agree_but_scratch(step(s, i)->Some_0, run(t, legalize(i))->Some_0),
{
    lemma_run_short(t, legalize(i));
    match i {
        AsmView::Mov(a, b) => {
            lemma_agree_reads(s, t, a);
            lemma_agree_writes(s, t, b, read(s, a));
        },
        AsmView::Cmp(a, b) => {
            lemma_agree_reads(s, t, a);
            lemma_agree_reads(s, t, b);
        },
        AsmView::Binary(op, a, b) => {
            lemma_agree_reads(s, t, a);
            lemma_agree_reads(s, t, b);
        },
        AsmView::Unary(op, a) => {
            lemma_agree_reads(s, t, a);
        },
        AsmView::Idiv(a) => {
            lemma_agree_reads(s, t, a);
        },
        AsmView::SetCC(cc, a) => {
            lemma_agree_reads(s, t, a);
        },
        _ => {},
    }
}

proof fn lemma_legalize_all_simulates(s: MachineState, t: MachineState, code: Seq<AsmView>)
    requires
        agree_but_scratch(s, t),
        forall|k: int| 0 <= k < code.len() ==> !uses_scratch(#[trigger] code[k]),
        run(s, code) is Some,
    ensures
        run(t, legalize_all(code)) is Some,
        agree_but_scratch(run(s, code)->Some_0, run(t, legalize_all(code))->Some_0),
    decreases code.len(),
{
    if code.len() > 0 {
        let front = code.drop_last();
        assert forall|k: int| 0 <= k < front.len() implies !uses_scratch(#[trigger] front[k]) by {
            assert(front[k] == code[k]);
        }
        lemma_legalize_all_simulates(s, t, front);
        let s1 = run(s, front)->Some_0;
        let t1 = run(t, legalize_all(front))->Some_0;
        assert(!uses_scratch(code[code.len() - 1]));
        lemma_legalize_simulates(s1, t1, code.last());
        lemma_run_append(t, legalize_all(front), legalize(code.last()));
    }
}

/// Whether no name occurs twice.
pub open spec fn distinct_names(names: Seq<Seq<char>>) -> bool {
    forall|i: int, j: int| 0 <= i < j < names.len() ==> names[i] != names[j]
}

pub open spec fn prefix_of(a: Seq<Seq<char>>, b: Seq<Seq<char>>) -> bool {
    a.len() <= b.len() && a == b.take(a.len() as int)
}

/// The stack machine `t` keeps in the slot of each allocated name the
/// value that the pseudo register of that name has in `s`.
pub open spec fn slots_hold(names: Seq<Seq<char>>, s: MachineState, t: MachineState) -> bool {
    &&& s.regs == t.regs
    &&& s.flags == t.flags
    &&& forall|k: int| 0 <= k < names.len() ==> #[trigger] t.stack[slot_offset(k)] == s.pseudo[names[k]]
}

/// Whether an instruction names a stack slot, which pseudo-assembly before
/// allocation never does.
pub open spec fn uses_stack(i: AsmView) -> bool {
    match i {
        AsmView::Mov(a, b) => a is Stack || b is Stack,
        AsmView::Cmp(a, b) => a is Stack || b is Stack,
        AsmView::Binary(_, a, b) => a is Stack || b is Stack,
        AsmView::Unary(_, a) => a is Stack,
        AsmView::Idiv(a) => a is Stack,
        AsmView::SetCC(_, a) => a is Stack,
        _ => false,
    }
}

proof fn lemma_slot_index_found(names: Seq<Seq<char>>, n: Seq<char>)
    ensures
        slot_index(names, n) < names.len(),
        slot_index(names, n) >= 0 ==> names[slot_index(names, n)] == n,
        slot_index(names, n) < 0 ==> forall|k: int| 0 <= k < names.len() ==> names[k] != n,
    decreases names.len(),
{
    if names.len() > 0 {
        lemma_slot_index_found(names.drop_last(), n);
        if names.last() != n {
            assert forall|k: int| 0 <= k < names.len() && slot_index(names, n) < 0 implies names[k]
                != n by {
                if k < names.len() - 1 {
                    assert(names[k] == names.drop_last()[k]);
                }
            }
        }
    }
}

proof fn lemma_prefix_trans(a: Seq<Seq<char>>, b: Seq<Seq<char>>, c: Seq<Seq<char>>)
    requires
        prefix_of(a, b),
        prefix_of(b, c),
    ensures
        prefix_of(a, c),
{
    assert(a =~= c.take(a.len() as int));
}

proof fn lemma_alloc_name_props(names: Seq<Seq<char>>, n: Seq<char>)
    ensures
        prefix_of(names, alloc_name(names, n).0),
        alloc_name(names, n).0.len() <= names.len() + 1,
        distinct_names(names) ==> distinct_names(alloc_name(names, n).0),
        slot_index(alloc_name(names, n).0, n) >= 0,
        alloc_name(names, n).1 == slot_offset(slot_index(alloc_name(names, n).0, n)),
{
    lemma_slot_index_found(names, n);
    if slot_index(names, n) < 0 {
        assert(names =~= names.push(n).take(names.len() as int));
        assert(names.push(n).drop_last() =~= names);
    } else {
        assert(names =~= names.take(names.len() as int));
    }
}

proof fn lemma_alloc_operand_props(names: Seq<Seq<char>>, o: OperandView)
    ensures
        prefix_of(names, alloc_operand(names, o).0),
        alloc_operand(names, o).0.len() <= names.len() + 1,
        distinct_names(names) ==> distinct_names(alloc_operand(names, o).0),
{
    match o {
        OperandView::Pseudo(n) => lemma_alloc_name_props(names, n),
        _ => {
            assert(names =~= names.take(names.len() as int));
        },
    }
}

proof fn lemma_alloc_instr_props(names: Seq<Seq<char>>, i: AsmView)
    ensures
        prefix_of(names, alloc_instr(names, i).0),
        alloc_instr(names, i).0.len() <= names.len() + 2,
        distinct_names(names) ==> distinct_names(alloc_instr(names, i).0),
        !uses_scratch(i) ==> !uses_scratch(alloc_instr(names, i).1),
{
    assert(names =~= names.take(names.len() as int));
    match i {
        AsmView::Mov(a, b) | AsmView::Cmp(a, b) | AsmView::Binary(_, a, b) => {
            lemma_alloc_operand_props(names, a);
            let m1 = alloc_operand(names, a).0;
            lemma_alloc_operand_props(m1, b);
            lemma_prefix_trans(names, m1, alloc_operand(m1, b).0);
        },
        AsmView::Unary(_, a) | AsmView::Idiv(a) | AsmView::SetCC(_, a) => {
            lemma_alloc_operand_props(names, a);
        },
        _ => {},
    }
}

proof fn lemma_alloc_all_props(names: Seq<Seq<char>>, code: Seq<AsmView>)
    ensures
        prefix_of(names, alloc_all(names, code).0),
        alloc_all(names, code).1.len() == code.len(),
        alloc_all(names, code).0.len() <= names.len() + 2 * code.len(),
        distinct_names(names) ==> distinct_names(alloc_all(names, code).0),
        (forall|k: int| 0 <= k < code.len() ==> !uses_scratch(#[trigger] code[k])) ==> (forall|
            k: int,
        |
            0 <= k < code.len() ==> !uses_scratch(#[trigger] alloc_all(names, code).1[k])),
    decreases code.len(),
{
    if code.len() == 0 {
        assert(names =~= names.take(names.len() as int));
    } else {
        let front = code.drop_last();
        lemma_alloc_all_props(names, front);
        let m1 = alloc_all(names, front).0;
        lemma_alloc_instr_props(m1, code.last());
        lemma_prefix_trans(names, m1, alloc_all(names, code).0);
        if forall|k: int| 0 <= k < code.len() ==> !uses_scratch(#[trigger] code[k]) {
            assert forall|k: int| 0 <= k < front.len() implies !uses_scratch(#[trigger] front[k]) by {
                assert(front[k] == code[k]);
            }
            assert(!uses_scratch(code[code.len() - 1]));
            let out = alloc_all(names, code).1;
            assert forall|k: int| 0 <= k < code.len() implies !uses_scratch(#[trigger] out[k]) by {
                if k < front.len() {
                    assert(out[k] == alloc_all(names, front).1[k]);
                }
            }
        }
    }
}

proof fn lemma_alloc_read(
    frame: Seq<Seq<char>>,
    names: Seq<Seq<char>>,
    o: OperandView,
    s: MachineState,
    t: MachineState,
)
    requires
        !(o is Stack),
        prefix_of(alloc_operand(names, o).0, frame),
        frame.len() <= MAX_SLOTS,
        slots_hold(frame, s, t),
    ensures
        read(t, alloc_operand(names, o).1) == read(s, o),
{
    if let OperandView::Pseudo(n) = o {
        lemma_alloc_name_props(names, n);
        let m = alloc_name(names, n).0;
        let k = slot_index(m, n);
        lemma_slot_index_found(m, n);
        assert(frame[k] == m[k]);
        assert(t.stack[slot_offset(k)] == s.pseudo[frame[k]]);
    }
}

proof fn lemma_alloc_write(
    frame: Seq<Seq<char>>,
    names: Seq<Seq<char>>,
    o: OperandView,
    s: MachineState,
    t: MachineState,
    v: int,
)
    requires
        !(o is Stack),
        distinct_names(frame),
        prefix_of(alloc_operand(names, o).0, frame),
        frame.len() <= MAX_SLOTS,
        slots_hold(frame, s, t),
    ensures
        write(s, o, v) is Some == write(t, alloc_operand(names, o).1, v) is Some,
        write(s, o, v) is Some ==> slots_hold(
            frame,
            write(s, o, v)->Some_0,
            write(t, alloc_operand(names, o).1, v)->Some_0,
        ),
{
    if let OperandView::Pseudo(n) = o {
        lemma_alloc_name_props(names, n);
        let m = alloc_name(names, n).0;
        let k = slot_index(m, n);
        lemma_slot_index_found(m, n);
        assert(frame[k] == m[k]);
        let s1 = write(s, o, v)->Some_0;
        let t1 = write(t, alloc_operand(names, o).1, v)->Some_0;
        assert forall|j: int| 0 <= j < frame.len() implies #[trigger] t1.stack[slot_offset(j)]
            == s1.pseudo[frame[j]] by {
            if j != k {
                assert(frame[j] != frame[k]);
            }
        }
    }
}

proof fn lemma_alloc_simulates(
    frame: Seq<Seq<char>>,
    names: Seq<Seq<char>>,
    i: AsmView,
    s: MachineState,
    t: MachineState,
)
    requires
        !uses_stack(i),
        distinct_names(frame),
        prefix_of(alloc_instr(names, i).0, frame),
        frame.len() <= MAX_SLOTS,
        slots_hold(frame, s, t),
        step(s, i) is Some,
    ensures
        step(t, alloc_instr(names, i).1) is Some,
        slots_hold(frame, step(s, i)->Some_0, step(t, alloc_instr(names, i).1)->Some_0),
{
    match i {
        AsmView::Mov(a, b) | AsmView::Cmp(a, b) | AsmView::Binary(_, a, b) => {
            lemma_alloc_operand_props(names, a);
            let m1 = alloc_operand(names, a).0;
            lemma_alloc_operand_props(m1, b);
            lemma_prefix_trans(m1, alloc_operand(m1, b).0, frame);
            lemma_alloc_read(frame, names, a, s, t);
            lemma_alloc_read(frame, m1, b, s, t);
            match i {
                AsmView::Mov(_, _) => lemma_alloc_write(frame, m1, b, s, t, read(s, a)),
                AsmView::Binary(op, _, _) => {
                    let v = match op {
                        AsmBinaryOperator::Add => wrap32(read(s, b) + read(s, a)),
                        AsmBinaryOperator::Sub => wrap32(read(s, b) - read(s, a)),
                        AsmBinaryOperator::Mult => wrap32(read(s, b) * read(s, a)),
                    };
                    lemma_alloc_write(frame, m1, b, s, t, v);
                },
                _ => {},
            }
        },
        AsmView::Unary(op, a) => {
            lemma_alloc_read(frame, names, a, s, t);
            let v = match op {
                AsmUnaryOperator::Neg => wrap32(-read(s, a)),
                AsmUnaryOperator::Complement => -read(s, a) - 1,
            };
            lemma_alloc_write(frame, names, a, s, t, v);
        },
        AsmView::SetCC(cc, a) => {
            lemma_alloc_read(frame, names, a, s, t);
            let old = read(s, a);
            lemma_alloc_write(
                frame,
                names,
                a,
                s,
                t,
                old - old % 256 + bool_value(condition_holds(cc, s.flags)),
            );
        },
        AsmView::Idiv(a) => {
            lemma_alloc_read(frame, names, a, s, t);
        },
        _ => {},
    }
}

proof fn lemma_alloc_all_simulates(
    frame: Seq<Seq<char>>,
    names: Seq<Seq<char>>,
    code: Seq<AsmView>,
    s: MachineState,
    t: MachineState,
)
    requires
        forall|k: int| 0 <= k < code.len() ==> !uses_stack(#[trigger] code[k]),
        distinct_names(frame),
        prefix_of(alloc_all(names, code).0, frame),
        frame.len() <= MAX_SLOTS,
        slots_hold(frame, s, t),
        run(s, code) is Some,
    ensures
        run(t, alloc_all(names, code).1) is Some,
        slots_hold(frame, run(s, code)->Some_0, run(t, alloc_all(names, code).1)->Some_0),
    decreases code.len(),
{
    if code.len() > 0 {
        let front = code.drop_last();
        assert forall|k: int| 0 <= k < front.len() implies !uses_stack(#[trigger] front[k]) by {
            assert(front[k] == code[k]);
        }
        assert(!uses_stack(code[code.len() - 1]));
        let m1 = alloc_all(names, front).0;
        lemma_alloc_instr_props(m1, code.last());
        lemma_prefix_trans(m1, alloc_all(names, code).0, frame);
        lemma_alloc_all_simulates(frame, names, front, s, t);
        let out1 = alloc_all(names, front).1;
        let last = alloc_instr(m1, code.last()).1;
        assert(alloc_all(names, code).1.drop_last() =~= out1);
        lemma_alloc_simulates(
            frame,
            m1,
            code.last(),
            run(s, front)->Some_0,
            run(t, out1)->Some_0,
        );
    }
}

proof fn lemma_slot_index_extends(m: Seq<Seq<char>>, frame: Seq<Seq<char>>, n: Seq<char>)
    requires
        slot_index(m, n) >= 0,
        prefix_of(m, frame),
    ensures
        slot_index(frame, n) >= 0,
{
    lemma_slot_index_found(m, n);
    lemma_slot_index_found(frame, n);
    assert(frame[slot_index(m, n)] == m[slot_index(m, n)]);
}

/// Whether the last operand of `i` is the pseudo register `d`, which it writes.
pub open spec fn writes_pseudo(i: AsmView, d: Seq<char>) -> bool {
    match i {
        AsmView::Mov(_, b) => b == OperandView::Pseudo(d),
        AsmView::SetCC(_, b) => b == OperandView::Pseudo(d),
        AsmView::Binary(_, _, b) => b == OperandView::Pseudo(d),
        _ => false,
    }
}

proof fn lemma_dest_allocated(names: Seq<Seq<char>>, i: AsmView, d: Seq<char>)
    requires
        writes_pseudo(i, d),
    ensures
        slot_index(alloc_instr(names, i).0, d) >= 0,
{
    match i {
        AsmView::Mov(a, _) | AsmView::Binary(_, a, _) => {
            lemma_alloc_name_props(alloc_operand(names, a).0, d);
        },
        _ => {
            lemma_alloc_name_props(names, d);
        },
    }
}

/// The frame names of a function: its temporaries in the order they got a slot.
pub open spec fn frame_names(ir: Seq<InstructionView>) -> Seq<Seq<char>> {
    alloc_all(seq![], select_all(ir)).0
}

/// The whole back end on the reference machine: for a function made of one
/// binary IR instruction `d = a op b` whose result is defined, the
/// assembled code, run from a state whose frame slots hold the values of
/// the temporaries, leaves in the slot of `d` the value that 32-bit signed
/// arithmetic gives.
pub proof fn lemma_binary_pipeline_computes(
    s: MachineState,
    t: MachineState,
    op: TackyBinaryOperator,
    a: ValueView,
    b: ValueView,
    d: Seq<char>,
)
    requires
        fits_i32(value_in(s, a)),
        reads_other_than(b, d),
        ir_binary(op, value_in(s, a), value_in(s, b)) is Some,
        slots_hold(frame_names(seq![InstructionView::Binary(op, a, b, ValueView::Var(d))]), s, t),
    ensures
        slot_index(frame_names(seq![InstructionView::Binary(op, a, b, ValueView::Var(d))]), d) >= 0,
        run(t, assemble(seq![InstructionView::Binary(op, a, b, ValueView::Var(d))])) is Some,
        run(t, assemble(seq![InstructionView::Binary(op, a, b, ValueView::Var(d))]))->Some_0.stack[
            slot_offset(
                slot_index(
                    frame_names(seq![InstructionView::Binary(op, a, b, ValueView::Var(d))]),
                    d,
                ),
            )] == ir_binary(op, value_in(s, a), value_in(s, b))->Some_0,
{
    let i = InstructionView::Binary(op, a, b, ValueView::Var(d));
    let ir = seq![i];
    assert(ir.drop_last() =~= Seq::<InstructionView>::empty());
    let sel = select_all(ir);
    assert(select_all(ir.drop_last()) =~= Seq::<AsmView>::empty());
    assert(sel =~= select(i));
    lemma_binary_selection_computes(s, op, a, b, d);
    let s1 = run(s, sel)->Some_0;
    assert forall|k: int| 0 <= k < sel.len() implies !uses_stack(#[trigger] sel[k]) && !uses_scratch(
        sel[k],
    ) by {}
    let empty = Seq::<Seq<char>>::empty();
    lemma_alloc_all_props(empty, sel);
    let frame = alloc_all(empty, sel).0;
    assert(frame =~= frame.take(frame.len() as int));
    lemma_alloc_all_simulates(frame, empty, sel, s, t);
    let out = alloc_all(empty, sel).1;
    let t1 = run(t, out)->Some_0;
    lemma_legalize_all_simulates(t, t, out);
    let t2 = run(t, legalize_all(out))->Some_0;
    let reserve = seq![AsmView::AllocateStack((4 * frame.len()) as i32)];
    lemma_run_short(t, reserve);
    lemma_run_append(t, reserve, legalize_all(out));
    assert(assemble(ir) == reserve + legalize_all(out));
    let m1 = alloc_all(empty, sel.drop_last()).0;
    lemma_dest_allocated(m1, sel.last(), d);
    lemma_alloc_instr_props(m1, sel.last());
    lemma_slot_index_extends(alloc_instr(m1, sel.last()).0, frame, d);
    lemma_slot_index_found(frame, d);
    let k = slot_index(frame, d);
    assert(t1.stack[slot_offset(k)] == s1.pseudo[frame[k]]);
}

/// The value of a unary operator on a 32-bit value.
pub open spec fn ir_unary(op: UnaryOperator, v: int) -> int {
    match op {
        UnaryOperator::Negate => wrap32(-v),
        UnaryOperator::Complement => -v - 1,
        UnaryOperator::Not => bool_value(v == 0),
    }
}

/// The value of an expression in 32-bit signed arithmetic; `None` where an
/// operation traps or is not supported.
pub open spec fn eval(e: Expression) -> Option<int>
    decreases e,
{
    match e {
        Expression::Factor(Factor::Constant(c)) => Some(c as int),
        Expression::Factor(Factor::Unary(op, inner)) => {
            let v = eval(*inner);
            if v is None {
                None
            } else {
                Some(ir_unary(op, v->Some_0))
            }
        },
        Expression::Factor(Factor::ParentedExpression(inner)) => eval(*inner),
        Expression::Binary(l, op, r) => {
            let a = eval(*l);
            let b = eval(*r);
            if a is None || b is None || tacky_of(op) is None {
                None
            } else {
                ir_binary(tacky_of(op)->Some_0, a->Some_0, b->Some_0)
            }
        },
    }
}

proof fn lemma_wrap32_fits(x: int)
    ensures
        fits_i32(wrap32(x)),
{
}

proof fn lemma_ir_binary_fits(op: TackyBinaryOperator, a: int, b: int)
    requires
        fits_i32(a),
        fits_i32(b),
        ir_binary(op, a, b) is Some,
    ensures
        fits_i32(ir_binary(op, a, b)->Some_0),
{
    lemma_wrap32_fits(a + b);
    lemma_wrap32_fits(a - b);
    lemma_wrap32_fits(a * b);
    if op == TackyBinaryOperator::Remainder {
        reveal(trunc_div);
        reveal(trunc_rem);
        let x = abs(a) as int;
        let y = abs(b) as int;
        let q = x / y;
        assert(0 <= x - y * q < y) by (nonlinear_arith)
            requires
                y > 0,
                x >= 0,
                q == x / y,
        ;
        if (a < 0) != (b < 0) {
            assert(trunc_div(a, b) == -q);
            assert(a - b * (-q) == a + b * q) by (nonlinear_arith);
            assert(trunc_rem(a, b) == a + b * q);
        } else {
            assert(trunc_rem(a, b) == a - b * q);
        }
        if a < 0 && b < 0 {
            assert(a - b * q == -(x - y * q)) by (nonlinear_arith)
                requires
                    x == -a,
                    y == -b,
            ;
        } else if a < 0 {
            assert(a + b * q == -(x - y * q)) by (nonlinear_arith)
                requires
                    x == -a,
                    y == b,
            ;
        } else if b < 0 {
            assert(a + b * q == x - y * q) by (nonlinear_arith)
                requires
                    x == a,
                    y == -b,
            ;
        } else {
            assert(a - b * q == x - y * q) by (nonlinear_arith)
                requires
                    x == a,
                    y == b,
            ;
        }
    }
}

proof fn lemma_eval_fits(e: Expression)
    requires
        eval(e) is Some,
    ensures
        fits_i32(eval(e)->Some_0),
    decreases e,
{
    match e {
        Expression::Factor(Factor::Unary(op, inner)) => {
            lemma_eval_fits(*inner);
            lemma_wrap32_fits(-eval(*inner)->Some_0);
        },
        Expression::Factor(Factor::ParentedExpression(inner)) => {
            lemma_eval_fits(*inner);
        },
        Expression::Binary(l, op, r) => {
            lemma_eval_fits(*l);
            lemma_eval_fits(*r);
            lemma_ir_binary_fits(tacky_of(op)->Some_0, eval(*l)->Some_0, eval(*r)->Some_0);
        },
        _ => {},
    }
}

proof fn lemma_unary_selection_computes(s: MachineState, op: UnaryOperator, a: ValueView, d: Seq<char>)
    ensures
        run(s, select(InstructionView::Unary(op, a, ValueView::Var(d)))) is Some,
        run(s, select(InstructionView::Unary(op, a, ValueView::Var(d))))->Some_0.pseudo
            == s.pseudo.insert(d, ir_unary(op, value_in(s, a))),
{
    let code = select(InstructionView::Unary(op, a, ValueView::Var(d)));
    lemma_run_short(s, code);
    let va = value_in(s, a);
    match op {
        UnaryOperator::Not => {
            let s1 = step(s, code[0])->Some_0;
            let s2 = step(s1, code[1])->Some_0;
            assert(s2.pseudo[d] == 0);
            let s3 = step(s2, code[2])->Some_0;
            assert(s3.pseudo =~= s.pseudo.insert(d, ir_unary(op, va)));
        },
        _ => {
            let s1 = step(s, code[0])->Some_0;
            let s2 = step(s1, code[1])->Some_0;
            assert(s2.pseudo =~= s.pseudo.insert(d, ir_unary(op, va)));
        },
    }
}

proof fn lemma_select_all_append(a: Seq<InstructionView>, b: Seq<InstructionView>)
    ensures
        select_all(a + b) == select_all(a) + select_all(b),
    decreases b.len(),
{
    if b.len() == 0 {
        assert(a + b =~= a);
        assert(select_all(a) + select_all(b) =~= select_all(a));
    } else {
        assert((a + b).drop_last() =~= a + b.drop_last());
        lemma_select_all_append(a, b.drop_last());
        assert(select_all(a + b) =~= select_all(a) + select_all(b));
    }
}

proof fn lemma_select_all_single(i: InstructionView)
    ensures
        select_all(seq![i]) == select(i),
{
    assert(seq![i].drop_last() =~= Seq::<InstructionView>::empty());
    assert(select_all(seq![i].drop_last()) =~= Seq::<AsmView>::empty());
    assert(seq![i].last() == i);
    assert(select_all(seq![i]) =~= select(i));
}

proof fn lemma_select_all_clean(ir: Seq<InstructionView>)
    ensures
        forall|k: int|
            0 <= k < select_all(ir).len() ==> !uses_stack(#[trigger] select_all(ir)[k])
                && !uses_scratch(select_all(ir)[k]),
    decreases ir.len(),
{
    if ir.len() > 0 {
        lemma_select_all_clean(ir.drop_last());
        let a = select_all(ir.drop_last());
        let b = select(ir.last());
        assert forall|k: int| 0 <= k < select_all(ir).len() implies !uses_stack(
            #[trigger] select_all(ir)[k],
        ) && !uses_scratch(select_all(ir)[k]) by {
            if k < a.len() {
                assert(select_all(ir)[k] == a[k]);
            } else {
                assert(select_all(ir)[k] == b[k - a.len()]);
            }
        }
    }
}

/// Whether `x` is no temporary minted at count `n` or later.
pub open spec fn fresh_from(x: Seq<char>, n: nat) -> bool {
    forall|j: nat| j >= n ==> x != #[trigger] tmp_name(j)
}

/// `s2` has the pseudo registers of `s` except, at most, temporaries minted
/// at count `n` or later.
pub open spec fn keeps_older(s: MachineState, s2: MachineState, n: nat) -> bool {
    forall|x: Seq<char>| #[trigger] fresh_from(x, n) ==> s2.pseudo[x] == s.pseudo[x]
}

proof fn lemma_older_is_fresh(j: nat, n: nat)
    requires
        j < n,
    ensures
        fresh_from(tmp_name(j), n),
{
    assert forall|k: nat| k >= n implies tmp_name(j) != #[trigger] tmp_name(k) by {
        lemma_tmp_names_distinct(j, k);
    }
}

proof fn lemma_lower_computes(e: Expression, n: nat, s: MachineState)
    requires
        lower(e, n) is Some,
        eval(e) is Some,
    ensures
        run(s, select_all(lower(e, n)->Some_0.0)) is Some,
        value_in(run(s, select_all(lower(e, n)->Some_0.0))->Some_0, lower(e, n)->Some_0.1)
            == eval(e)->Some_0,
        keeps_older(s, run(s, select_all(lower(e, n)->Some_0.0))->Some_0, n),
        n <= lower(e, n)->Some_0.2,
        lower(e, n)->Some_0.1 is Var ==> n < lower(e, n)->Some_0.2 && lower(e, n)->Some_0.1
            == ValueView::Var(tmp_name((lower(e, n)->Some_0.2 - 1) as nat)),
    decreases e,
{
    match e {
        Expression::Factor(Factor::Constant(c)) => {
            assert(select_all(Seq::<InstructionView>::empty()) =~= Seq::<AsmView>::empty());
        },
        Expression::Factor(Factor::ParentedExpression(inner)) => {
            lemma_lower_computes(*inner, n, s);
        },
        Expression::Factor(Factor::Unary(op, inner)) => {
            let (i1, v1, n1) = lower(*inner, n)->Some_0;
            lemma_lower_computes(*inner, n, s);
            let s1 = run(s, select_all(i1))->Some_0;
            let d = tmp_name(n1);
            let ins = InstructionView::Unary(op, v1, ValueView::Var(d));
            lemma_select_all_append(i1, seq![ins]);
            assert(i1.push(ins) =~= i1 + seq![ins]);
            lemma_select_all_single(ins);
            lemma_run_append(s, select_all(i1), select(ins));
            lemma_unary_selection_computes(s1, op, v1, d);
            let s2 = run(s1, select(ins))->Some_0;
            assert(fresh_from(d, n) ==> false) by {
                if fresh_from(d, n) {
                    assert(d != tmp_name(n1));
                }
            }
        },
        Expression::Binary(l, op, r) => {
            let (i1, v1, n1) = lower(*l, n)->Some_0;
            let (i2, v2, n2) = lower(*r, n1)->Some_0;
            lemma_lower_computes(*l, n, s);
            let s1 = run(s, select_all(i1))->Some_0;
            lemma_lower_computes(*r, n1, s1);
            let s2 = run(s1, select_all(i2))->Some_0;
            if v1 is Var {
                lemma_older_is_fresh((n1 - 1) as nat, n1);
            }
            assert(value_in(s2, v1) == value_in(s1, v1));
            let d = tmp_name(n2);
            let top = tacky_of(op)->Some_0;
            let ins = InstructionView::Binary(top, v1, v2, ValueView::Var(d));
            lemma_select_all_append(i1, i2);
            lemma_select_all_append(i1 + i2, seq![ins]);
            assert((i1 + i2).push(ins) =~= i1 + i2 + seq![ins]);
            lemma_select_all_single(ins);
            lemma_run_append(s, select_all(i1), select_all(i2));
            lemma_run_append(s, select_all(i1) + select_all(i2), select(ins));
            lemma_eval_fits(*l);
            if v2 is Var {
                lemma_tmp_names_distinct((n2 - 1) as nat, n2);
            }
            lemma_binary_selection_computes(s2, top, v1, v2, d);
            assert forall|x: Seq<char>| #[trigger] fresh_from(x, n) implies run(
                s,
                select_all(lower(e, n)->Some_0.0),
            )->Some_0.pseudo[x] == s.pseudo[x] by {
                assert(x != tmp_name(n2));
                assert(fresh_from(x, n1));
            }
        },
    }
}

proof fn lemma_slot_index_distinct(frame: Seq<Seq<char>>, k: int)
    requires
        distinct_names(frame),
        0 <= k < frame.len(),
    ensures
        slot_index(frame, frame[k]) == k,
{
    lemma_slot_index_found(frame, frame[k]);
}

/// A pseudo-assembly machine whose temporaries are read from the frame
/// slots of `t`.
pub open spec fn pseudo_view_of(frame: Seq<Seq<char>>, t: MachineState) -> MachineState {
    MachineState {
        pseudo: Map::new(|x: Seq<char>| true, |x: Seq<char>| t.stack[slot_offset(slot_index(frame, x))]),
        ..t
    }
}

/// The whole compiler on the reference machine: the assembly of a function
/// whose body is `return e;`, run from any state, leaves the value of `e`
/// in 32-bit signed arithmetic in `%eax` when it reaches its final `ret`,
/// whenever that value is defined.
pub proof fn lemma_return_computes(e: Expression, t: MachineState)
    requires
        lower(e, 0) is Some,
        lower(e, 0)->Some_0.0.len() < MAX_IR_INSTRUCTIONS,
        eval(e) is Some,
    ensures
        lower_body(Statement::ReturnStatement(Some(e))) is Some,
        assemble(lower_body(Statement::ReturnStatement(Some(e)))->Some_0).last() == AsmView::Return,
        run(t, assemble(lower_body(Statement::ReturnStatement(Some(e)))->Some_0).drop_last()) is Some,
        run(
            t,
            assemble(lower_body(Statement::ReturnStatement(Some(e)))->Some_0).drop_last(),
        )->Some_0.regs[AsmRegistry::AX] == eval(e)->Some_0,
{
    let (body, v, _) = lower(e, 0)->Some_0;
    let ir = body.push(InstructionView::Return(v));
    assert(lower_body(Statement::ReturnStatement(Some(e))) == Some(ir));
    let mov = AsmView::Mov(operand_of(v), reg(AsmRegistry::AX));
    let sel = select_all(ir);
    assert(ir.drop_last() =~= body);
    assert(sel == select_all(body) + seq![mov, AsmView::Return]);
    let code = sel.drop_last();
    assert(code =~= select_all(body) + seq![mov]);
    let empty = Seq::<Seq<char>>::empty();
    let frame = alloc_all(empty, sel).0;
    assert(frame == alloc_all(empty, code).0);
    let out = alloc_all(empty, code).1;
    assert(alloc_all(empty, sel).1 == out.push(AsmView::Return));
    assert(out.push(AsmView::Return).drop_last() =~= out);
    assert(legalize_all(out.push(AsmView::Return)) == legalize_all(out) + seq![AsmView::Return]);
    let reserve = seq![AsmView::AllocateStack((4 * frame.len()) as i32)];
    assert(assemble(ir) == reserve + (legalize_all(out) + seq![AsmView::Return]));
    assert(assemble(ir).drop_last() =~= reserve + legalize_all(out));
    // The code on pseudo registers computes e.
    lemma_select_all_len(ir);
    lemma_select_all_clean(ir);
    assert forall|k: int| 0 <= k < code.len() implies !uses_stack(#[trigger] code[k])
        && !uses_scratch(code[k]) by {
        assert(code[k] == sel[k]);
    }
    lemma_alloc_all_props(empty, code);
    assert(frame =~= frame.take(frame.len() as int));
    let s = pseudo_view_of(frame, t);
    assert forall|k: int| 0 <= k < frame.len() implies #[trigger] t.stack[slot_offset(k)]
        == s.pseudo[frame[k]] by {
        lemma_slot_index_distinct(frame, k);
    }
    lemma_lower_computes(e, 0, s);
    let s1 = run(s, select_all(body))->Some_0;
    lemma_run_append(s, select_all(body), seq![mov]);
    lemma_run_short(s1, seq![mov]);
    // Allocation and legalization keep what it computes.
    lemma_alloc_all_simulates(frame, empty, code, s, t);
    lemma_legalize_all_simulates(t, t, out);
    lemma_run_short(t, reserve);
    lemma_run_append(t, reserve, legalize_all(out));
}

} // verus!
