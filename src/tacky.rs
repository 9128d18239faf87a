//! The three-address intermediate representation and its builder, which
//! flattens expression trees in post-order into fresh temporaries.
use vstd::prelude::*;

use crate::ast::{AstNode, BinaryOperator, Expression, Factor, Identifier, Statement, UnaryOperator};
use crate::text::{append_nat, lemma_nat_text_injective, nat_text};

verus! {

#[derive(Debug, Clone)]
pub struct TackyProgram(pub FunctionDefinition);

#[derive(Debug, Clone, Default)]
pub struct FunctionDefinition {
    pub identifier: String,
    pub instruction: Vec<Instruction>,
}

#[derive(Debug, Clone, Copy, PartialEq, Eq, Structural)]
pub enum TackyBinaryOperator {
    Add,
    Substract,
    Multiply,
    Divide,
    Remainder,
    Equal,
    NotEqual,
    LessThan,
    LessOrEqual,
    GreaterThan,
    GreaterOrEqual,
}

/// The IR operator for a source operator; logical and/or have none.
pub open spec fn tacky_of(op: BinaryOperator) -> Option<TackyBinaryOperator> {
    match op {
        BinaryOperator::And | BinaryOperator::Or => None,
        BinaryOperator::Add => Some(TackyBinaryOperator::Add),
        BinaryOperator::Substract => Some(TackyBinaryOperator::Substract),
        BinaryOperator::Multiply => Some(TackyBinaryOperator::Multiply),
        BinaryOperator::Divide => Some(TackyBinaryOperator::Divide),
        BinaryOperator::Remainder => Some(TackyBinaryOperator::Remainder),
        BinaryOperator::Equal => Some(TackyBinaryOperator::Equal),
        BinaryOperator::NotEqual => Some(TackyBinaryOperator::NotEqual),
        BinaryOperator::LessThan => Some(TackyBinaryOperator::LessThan),
        BinaryOperator::LessOrEqual => Some(TackyBinaryOperator::LessOrEqual),
        BinaryOperator::GreaterThan => Some(TackyBinaryOperator::GreaterThan),
        BinaryOperator::GreaterOrEqual => Some(TackyBinaryOperator::GreaterOrEqual),
    }
}

impl TackyBinaryOperator {
    pub fn from_binary(op: &BinaryOperator) -> (r: Option<Self>)
        ensures
            r == tacky_of(*op),
    {
        match op {
            BinaryOperator::And | BinaryOperator::Or => None,
            BinaryOperator::Add => Some(TackyBinaryOperator::Add),
            BinaryOperator::Substract => Some(TackyBinaryOperator::Substract),
            BinaryOperator::Multiply => Some(TackyBinaryOperator::Multiply),
            BinaryOperator::Divide => Some(TackyBinaryOperator::Divide),
            BinaryOperator::Remainder => Some(TackyBinaryOperator::Remainder),
            BinaryOperator::Equal => Some(TackyBinaryOperator::Equal),
            BinaryOperator::NotEqual => Some(TackyBinaryOperator::NotEqual),
            BinaryOperator::LessThan => Some(TackyBinaryOperator::LessThan),
            BinaryOperator::LessOrEqual => Some(TackyBinaryOperator::LessOrEqual),
            BinaryOperator::GreaterThan => Some(TackyBinaryOperator::GreaterThan),
            BinaryOperator::GreaterOrEqual => Some(TackyBinaryOperator::GreaterOrEqual),
        }
    }
}

#[derive(Debug, Clone)]
pub enum Instruction {
    Return(Value),
    Unary { operator: UnaryOperator, src: Value, dest: Value },
    Binary { operator: TackyBinaryOperator, src1: Value, src2: Value, dest: Value },
    Copy { src: Value, dest: Value },
    Jump(Identifier),
    JumpIfZero(Value, Identifier),
    JumpIfNotZero(Value, Identifier),
    Label(Identifier),
}

#[derive(Debug, Clone)]
pub enum Value {
    Constant(i32),
    Var(Identifier),
}

/// What a `Value` denotes: a constant, or a temporary by its name.
pub enum ValueView {
    Constant(i32),
    Var(Seq<char>),
}

/// What an `Instruction` denotes, with names as character sequences.
pub enum InstructionView {
    Return(ValueView),
    Unary(UnaryOperator, ValueView, ValueView),
    Binary(TackyBinaryOperator, ValueView, ValueView, ValueView),
    Copy(ValueView, ValueView),
    Jump(Seq<char>),
    JumpIfZero(ValueView, Seq<char>),
    JumpIfNotZero(ValueView, Seq<char>),
    Label(Seq<char>),
}

impl View for Value {
    type V = ValueView;

    open spec fn view(&self) -> ValueView {
        match self {
            Value::Constant(c) => ValueView::Constant(*c),
            Value::Var(id) => ValueView::Var(id@),
        }
    }
}

impl View for Instruction {
    type V = InstructionView;

    open spec fn view(&self) -> InstructionView {
        match self {
            Instruction::Return(v) => InstructionView::Return(v@),
            Instruction::Unary { operator, src, dest } => InstructionView::Unary(
                *operator,
                src@,
                dest@,
            ),
            Instruction::Binary { operator, src1, src2, dest } => InstructionView::Binary(
                *operator,
                src1@,
                src2@,
                dest@,
            ),
            Instruction::Copy { src, dest } => InstructionView::Copy(src@, dest@),
            Instruction::Jump(l) => InstructionView::Jump(l@),
            Instruction::JumpIfZero(v, l) => InstructionView::JumpIfZero(v@, l@),
            Instruction::JumpIfNotZero(v, l) => InstructionView::JumpIfNotZero(v@, l@),
            Instruction::Label(l) => InstructionView::Label(l@),
        }
    }
}

/// The views of a list of IR instructions.
pub open spec fn ir_view(s: Seq<Instruction>) -> Seq<InstructionView> {
    s.map_values(|i: Instruction| i@)
}

/// Largest number of temporaries one compilation can mint.
pub const MAX_TEMPORARIES: i32 = 2147483647;

/// Name of the temporary minted `n`-th in a compilation.
pub open spec fn tmp_name(n: nat) -> Seq<char> {
    "tmp."@ + nat_text(n)
}

/// Post-order lowering of `e` with the temporary counter at `n`: the
/// instructions emitted, the value that holds the result, and the counter
/// afterwards. `None` when `e` uses an operator the IR lacks, or when the
/// counter would pass `MAX_TEMPORARIES`.
pub open spec fn lower(e: Expression, n: nat) -> Option<(Seq<InstructionView>, ValueView, nat)>
    decreases e,
{
    match e {
        Expression::Binary(l, op, r) => {
            let left = lower(*l, n);
            let right = lower(*r, left->Some_0.2);
            if left is None || right is None || tacky_of(op) is None || right->Some_0.2
                >= MAX_TEMPORARIES {
                None
            } else {
                let d = ValueView::Var(tmp_name(right->Some_0.2));
                let ins = InstructionView::Binary(
                    tacky_of(op)->Some_0,
                    left->Some_0.1,
                    right->Some_0.1,
                    d,
                );
                Some(((left->Some_0.0 + right->Some_0.0).push(ins), d, right->Some_0.2 + 1))
            }
        },
        Expression::Factor(Factor::Constant(c)) => Some((seq![], ValueView::Constant(c), n)),
        Expression::Factor(Factor::Unary(op, inner)) => {
            let sub = lower(*inner, n);
            if sub is None || sub->Some_0.2 >= MAX_TEMPORARIES {
                None
            } else {
                let d = ValueView::Var(tmp_name(sub->Some_0.2));
                Some((sub->Some_0.0.push(InstructionView::Unary(op, sub->Some_0.1, d)), d, sub->Some_0.2 + 1))
            }
        },
        Expression::Factor(Factor::ParentedExpression(inner)) => lower(*inner, n),
    }
}

/// Lowering of one statement of a function body: only `return <expr>;` is modelled.
pub open spec fn lower_statement(s: Statement, n: nat) -> Option<(Seq<InstructionView>, nat)> {
    match s {
        Statement::ReturnStatement(Some(e)) => match lower(e, n) {
            None => None,
            Some((is, v, n1)) => Some((is.push(InstructionView::Return(v)), n1)),
        },
        _ => None,
    }
}

/// Lowering of the statements of a block, in order.
pub open spec fn lower_statements(s: Seq<Statement>, n: nat) -> Option<(Seq<InstructionView>, nat)>
    decreases s.len(),
{
    if s.len() == 0 {
        Some((seq![], n))
    } else {
        let front = lower_statements(s.drop_last(), n);
        let last = lower_statement(s.last(), front->Some_0.1);
        if front is None || last is None {
            None
        } else {
            Some((front->Some_0.0 + last->Some_0.0, last->Some_0.1))
        }
    }
}

/// Lowering of a function body with the counter seeded at zero.
pub open spec fn lower_body(body: Statement) -> Option<Seq<InstructionView>> {
    match body {
        Statement::Compound(v) => match lower_statements(v@, 0) {
            None => None,
            Some((is, _)) => Some(is),
        },
        _ => match lower_statement(body, 0) {
            None => None,
            Some((is, _)) => Some(is),
        },
    }
}

/// The IR of a program: its first node must be a function declaration,
/// whose name and lowered body make the result.
pub open spec fn lower_program(nodes: Seq<AstNode>) -> Option<(Seq<char>, Seq<InstructionView>)> {
    if nodes.len() == 0 {
        None
    } else {
        match nodes[0] {
            AstNode::FunctionDeclaration(f) => match lower_body(f.body) {
                None => None,
                Some(is) => Some((f.name@, is)),
            },
            _ => None,
        }
    }
}

pub struct Tacky {
    pub nodes: Vec<AstNode>,
    pub result: FunctionDefinition,
    pub counter: i32,
}

/// Mints the temporary numbered by `counter` and advances it.
fn fresh_temporary(counter: &mut i32) -> (r: Result<Identifier, String>)
    requires
        *old(counter) >= 0,
    ensures
        *old(counter) < MAX_TEMPORARIES ==> r is Ok && r->Ok_0@ == tmp_name(*old(counter) as nat)
            && *final(counter) == *old(counter) + 1,
        *old(counter) >= MAX_TEMPORARIES ==> r is Err,
{
    if *counter >= MAX_TEMPORARIES {
        return Err(String::from_str("unsupported input: too many temporaries"));
    }
    let mut name = String::from_str("tmp.");
    append_nat(&mut name, *counter as u32);
    *counter = *counter + 1;
    Ok(Identifier(name))
}

fn copy_value(v: &Value) -> (r: Value)
    ensures
        r@ == v@,
{
    match v {
        Value::Constant(c) => Value::Constant(*c),
        Value::Var(id) => Value::Var(Identifier(id.0.clone())),
    }
}

/// Lowers `e`, appending its instructions to `out`; returns the value that
/// holds its result.
fn lower_expression(out: &mut Vec<Instruction>, counter: &mut i32, e: &Expression) -> (r: Result<
    Value,
    String,
>)
    requires
        *old(counter) >= 0,
    ensures
        match lower(*e, *old(counter) as nat) {
            Some((is, v, n)) => r is Ok && r->Ok_0@ == v && ir_view(final(out)@) == ir_view(
                old(out)@,
            ) + is && *final(counter) == n,
            None => r is Err,
        },
    decreases e,
{
    let ghost out0 = out@;
    match e {
        Expression::Binary(l, op, r) => {
            let v1 = match lower_expression(out, counter, l) {
                Ok(v) => v,
                Err(m) => return Err(m),
            };
            let ghost out1 = out@;
            let v2 = match lower_expression(out, counter, r) {
                Ok(v) => v,
                Err(m) => return Err(m),
            };
            let ghost out2 = out@;
            let operator = match TackyBinaryOperator::from_binary(op) {
                Some(o) => o,
                None => return Err(String::from_str("unsupported input: logical and/or")),
            };
            let dst = match fresh_temporary(counter) {
                Ok(d) => d,
                Err(m) => return Err(m),
            };
            let dest = Value::Var(Identifier(dst.0.clone()));
            out.push(Instruction::Binary { operator, src1: v1, src2: v2, dest });
            proof {
                assert(ir_view(out@) =~= ir_view(out2).push(out@.last()@));
                assert(ir_view(out2) =~= ir_view(out1) + ir_view(out2).subrange(
                    out1.len() as int,
                    out2.len() as int,
                ));
            }
            Ok(Value::Var(dst))
        },
        Expression::Factor(Factor::Constant(c)) => {
            proof {
                assert(ir_view(out@) =~= ir_view(out0) + seq![]);
            }
            Ok(Value::Constant(*c))
        },
        Expression::Factor(Factor::Unary(op, inner)) => {
            let v1 = match lower_expression(out, counter, inner) {
                Ok(v) => v,
                Err(m) => return Err(m),
            };
            let ghost out1 = out@;
            let dst = match fresh_temporary(counter) {
                Ok(d) => d,
                Err(m) => return Err(m),
            };
            let dest = Value::Var(Identifier(dst.0.clone()));
            out.push(Instruction::Unary { operator: *op, src: v1, dest });
            proof {
                assert(ir_view(out@) =~= ir_view(out1).push(out@.last()@));
            }
            Ok(Value::Var(dst))
        },
        Expression::Factor(Factor::ParentedExpression(inner)) => lower_expression(
            out,
            counter,
            inner,
        ),
    }
}

/// Lowers one statement of a function body, appending its instructions to `out`.
fn lower_one_statement(out: &mut Vec<Instruction>, counter: &mut i32, s: &Statement) -> (r: Result<
    (),
    String,
>)
    requires
        *old(counter) >= 0,
    ensures
        match lower_statement(*s, *old(counter) as nat) {
            Some((is, n)) => r is Ok && ir_view(final(out)@) == ir_view(old(out)@) + is
                && *final(counter) == n,
            None => r is Err,
        },
{
    match s {
        Statement::ReturnStatement(Some(e)) => {
            let v = match lower_expression(out, counter, e) {
                Ok(v) => v,
                Err(m) => return Err(m),
            };
            let ghost out1 = out@;
            out.push(Instruction::Return(v));
            proof {
                assert(ir_view(out@) =~= ir_view(out1).push(out@.last()@));
            }
            Ok(())
        },
        Statement::ReturnStatement(None) => Err(
            String::from_str("unsupported input: return without a value"),
        ),
        Statement::VariableDeclaration { .. } => Err(
            String::from_str("unsupported input: variable declaration"),
        ),
        Statement::Compound(_) => Err(String::from_str("unsupported input: nested block")),
    }
}

proof fn lemma_prefix_fails(s: Seq<Statement>, k: int, n: nat)
    requires
        0 <= k <= s.len(),
        lower_statements(s.take(k), n) is None,
    ensures
        lower_statements(s, n) is None,
    decreases s.len() - k,
{
    if k < s.len() {
        assert(s.take(k + 1).drop_last() =~= s.take(k));
        lemma_prefix_fails(s, k + 1, n);
    } else {
        assert(s.take(k) =~= s);
    }
}

fn copy_instruction(i: &Instruction) -> (r: Instruction)
    ensures
        r@ == i@,
{
    match i {
        Instruction::Return(v) => Instruction::Return(copy_value(v)),
        Instruction::Unary { operator, src, dest } => Instruction::Unary {
            operator: *operator,
            src: copy_value(src),
            dest: copy_value(dest),
        },
        Instruction::Binary { operator, src1, src2, dest } => Instruction::Binary {
            operator: *operator,
            src1: copy_value(src1),
            src2: copy_value(src2),
            dest: copy_value(dest),
        },
        Instruction::Copy { src, dest } => Instruction::Copy {
            src: copy_value(src),
            dest: copy_value(dest),
        },
        Instruction::Jump(l) => Instruction::Jump(Identifier(l.0.clone())),
        Instruction::JumpIfZero(v, l) => Instruction::JumpIfZero(
            copy_value(v),
            Identifier(l.0.clone()),
        ),
        Instruction::JumpIfNotZero(v, l) => Instruction::JumpIfNotZero(
            copy_value(v),
            Identifier(l.0.clone()),
        ),
        Instruction::Label(l) => Instruction::Label(Identifier(l.0.clone())),
    }
}

fn copy_instructions(v: &Vec<Instruction>) -> (r: Vec<Instruction>)
    ensures
        ir_view(r@) == ir_view(v@),
{
    let mut r: Vec<Instruction> = Vec::new();
    let mut i: usize = 0;
    while i < v.len()
        invariant
            i <= v.len(),
            r@.len() == i,
            forall|k: int| 0 <= k < i ==> (#[trigger] r@[k])@ == v@[k]@,
        decreases v.len() - i,
    {
        r.push(copy_instruction(&v[i]));
        i = i + 1;
    }
    assert(ir_view(r@) =~= ir_view(v@));
    r
}

impl Tacky {
    /// A builder for the program held by `node`, if it is a program node.
    pub fn from_program_node(node: AstNode) -> (r: Option<Tacky>)
        ensures
            match node {
                AstNode::Program(nodes) => r is Some && r->Some_0.nodes@ == nodes@
                    && r->Some_0.counter == 0 && r->Some_0.result.instruction@.len() == 0,
                _ => r is None,
            },
    {
        match node {
            AstNode::Program(nodes) => Some(
                Tacky {
                    nodes,
                    counter: 0,
                    result: FunctionDefinition { identifier: String::new(), instruction: Vec::new() },
                },
            ),
            _ => None,
        }
    }

    /// Lowers the first function of the program to IR. The temporary
    /// counter starts from zero on every call, so equal programs give
    /// equal IR.
    pub fn parse(&mut self) -> (r: Result<TackyProgram, String>)
        ensures
            final(self).nodes@ == old(self).nodes@,
            match lower_program(old(self).nodes@) {
                Some((name, is)) => r is Ok && r->Ok_0.0.identifier@ == name && ir_view(
                    r->Ok_0.0.instruction@,
                ) == is && final(self).result.identifier@ == name && ir_view(
                    final(self).result.instruction@,
                ) == is,
                None => r is Err,
            },
    {
        self.counter = 0;
        let mut out: Vec<Instruction> = Vec::new();
        let mut counter: i32 = 0;
        if self.nodes.len() == 0 {
            return Err(String::from_str("unsupported input: the program has no function"));
        }
        let function = match &self.nodes[0] {
            AstNode::FunctionDeclaration(f) => f,
            _ => return Err(String::from_str("unsupported input: expected a function declaration")),
        };
        match &function.body {
            Statement::Compound(stmts) => {
                let mut i: usize = 0;
                while i < stmts.len()
                    invariant
                        i <= stmts.len(),
                        counter >= 0,
                        self.nodes@ == old(self).nodes@,
                        old(self).nodes@.len() > 0,
                        old(self).nodes@[0] == AstNode::FunctionDeclaration(*function),
                        function.body == Statement::Compound(*stmts),
                        lower_statements(stmts@.take(i as int), 0) is Some,
                        ir_view(out@) == lower_statements(stmts@.take(i as int), 0)->Some_0.0,
                        counter == lower_statements(stmts@.take(i as int), 0)->Some_0.1,
                    decreases stmts.len() - i,
                {
                    proof {
                        assert(stmts@.take(i as int + 1).drop_last() =~= stmts@.take(i as int));
                        assert(stmts@.take(i as int + 1).last() == stmts@[i as int]);
                    }
                    match lower_one_statement(&mut out, &mut counter, &stmts[i]) {
                        Ok(()) => {},
                        Err(m) => {
                            proof {
                                lemma_prefix_fails(stmts@, i as int + 1, 0);
                            }
                            return Err(m);
                        },
                    }
                    i = i + 1;
                }
                proof {
                    assert(stmts@.take(i as int) =~= stmts@);
                }
            },
            other => {
                match lower_one_statement(&mut out, &mut counter, other) {
                    Ok(()) => {},
                    Err(m) => return Err(m),
                }
                assert(ir_view(out@) =~= ir_view(Seq::<Instruction>::empty()) + ir_view(out@));
            },
        }
        let name = function.name.clone();
        let copy = copy_instructions(&out);
        self.counter = counter;
        self.result = FunctionDefinition { identifier: name.clone(), instruction: out };
        Ok(TackyProgram(FunctionDefinition { identifier: name, instruction: copy }))
    }
}

/// Temporaries minted at different counts have different names.
pub proof fn lemma_tmp_names_distinct(a: nat, b: nat)
    requires
        a != b,
    ensures
        tmp_name(a) != tmp_name(b),
{
    lemma_nat_text_injective(a, b);
    reveal_strlit("tmp.");
    if tmp_name(a) == tmp_name(b) {
        assert(tmp_name(a).subrange(4, tmp_name(a).len() as int) =~= nat_text(a));
        assert(tmp_name(b).subrange(4, tmp_name(b).len() as int) =~= nat_text(b));
    }
}

/// Nesting depth of an expression made only of unary operators and
/// parentheses around one constant; `None` for any other expression.
pub open spec fn unary_depth(e: Expression) -> Option<nat>
    decreases e,
{
    match e {
        Expression::Factor(Factor::Constant(_)) => Some(0),
        Expression::Factor(Factor::Unary(_, inner)) => {
            let d = unary_depth(*inner);
            if d is None {
                None
            } else {
                Some(d->Some_0 + 1)
            }
        },
        Expression::Factor(Factor::ParentedExpression(inner)) => unary_depth(*inner),
        Expression::Binary(..) => None,
    }
}

/// Nested unary operators lower to a chain of `Unary` instructions, one per
/// level of nesting: the k-th writes the k-th fresh temporary and reads the
/// one before it, parentheses add nothing, and no two levels share a
/// temporary.
pub proof fn lemma_unary_chain(e: Expression, n: nat)
    requires
        unary_depth(e) is Some,
        n + unary_depth(e)->Some_0 <= MAX_TEMPORARIES,
    ensures
        lower(e, n) is Some,
        lower(e, n)->Some_0.0.len() == unary_depth(e)->Some_0,
        lower(e, n)->Some_0.2 == n + unary_depth(e)->Some_0,
        forall|k: int|
            0 <= k < unary_depth(e)->Some_0 ==> (#[trigger] lower(e, n)->Some_0.0[k]) is Unary
                && lower(e, n)->Some_0.0[k]->Unary_2 == ValueView::Var(tmp_name((n + k) as nat)),
        forall|k: int|
            0 < k < unary_depth(e)->Some_0 ==> (#[trigger] lower(e, n)->Some_0.0[k])->Unary_1
                == ValueView::Var(tmp_name((n + k - 1) as nat)),
        unary_depth(e)->Some_0 == 0 ==> lower(e, n)->Some_0.1 is Constant,
        unary_depth(e)->Some_0 > 0 ==> lower(e, n)->Some_0.1 == ValueView::Var(
            tmp_name((n + unary_depth(e)->Some_0 - 1) as nat),
        ),
        forall|j: int, k: int|
            #![trigger tmp_name((n + j) as nat), tmp_name((n + k) as nat)]
            0 <= j < k < unary_depth(e)->Some_0 ==> tmp_name((n + j) as nat) != tmp_name(
                (n + k) as nat,
            ),
    decreases e,
{
    assert forall|j: int, k: int|
        #![trigger tmp_name((n + j) as nat), tmp_name((n + k) as nat)]
        0 <= j < k < unary_depth(e)->Some_0 implies tmp_name(
        (n + j) as nat,
    ) != tmp_name((n + k) as nat) by {
        lemma_tmp_names_distinct((n + j) as nat, (n + k) as nat);
    }
    match e {
        Expression::Factor(Factor::Unary(_, inner)) => {
            lemma_unary_chain(*inner, n);
        },
        Expression::Factor(Factor::ParentedExpression(inner)) => {
            lemma_unary_chain(*inner, n);
        },
        _ => {},
    }
}

} // verus!
