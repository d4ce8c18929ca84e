//! Converts monomorphized expressions to SSA instructions.

use std::collections::{HashMap, HashSet};
use vstd::prelude::*;
use crate::ast;
use crate::ast::{
    ArrayLiteral, Assign, Binary, BinaryOpKind, Call, Cast, Definition, Expression, ExpressionKind,
    FmtStrFragment, For, FuncId, GlobalId, Ident, If, Index, LValue, Let, Literal, LocalId, Signedness, Unary,
    UnaryOp, While,
};
use crate::field::{Field, noir_field_to_bn254};
use crate::lowering::admission::Admission;
use crate::lowering::model;
use crate::lowering::model::{AccessStep, Builtin, LoopContext, LowerEnv, LowerState, Place};
use crate::lowering::replacement;
use crate::lowering::replacement::LowLevelReplacement;
use crate::lowering::soundness;
use crate::lowering::type_converter;
use crate::lowering::type_converter::TypeConverter;
use crate::ssa::builder;
use crate::ssa::builder::{Code, HLFunctionBuilder};
use crate::ssa::hlssa;
use crate::ssa::hlssa::{
    BinaryOp, BlockId, CastTarget, Constant, ConstantView, Endianness, FunctionId, Opcode,
    SequenceTargetType, TerminatorView, Type, TypeView, ValueId,
};
use crate::text::same_text;
use crate::text_map::TextMap;

verus! {

broadcast use {soundness::lemma_continues_trans, vstd::std_specs::hash::group_hash_axioms};

/// Converts the expressions of one function.
pub struct ExpressionConverter<'a> {
    /// What each local is bound to: its value, or, for a mutable one, a pointer to it.
    bindings: HashMap<u32, ValueId>,
    mutable_locals: HashSet<u32>,
    function_mapper: &'a HashMap<u32, FunctionId>,
    natively_unconstrained: &'a HashSet<u32>,
    type_converter: TypeConverter,
    /// The enclosing loops, innermost last.
    loop_stack: Vec<LoopContext>,
    in_unconstrained: bool,
    global_slots: &'a HashMap<u32, usize>,
    lowlevel_replacements: &'a TextMap<LowLevelReplacement>,
    /// The block that is being filled.
    current_block: BlockId,
}

/// What a converter knows, apart from the code.
#[verifier::ext_equal]
pub struct ConverterView {
    pub bindings: Map<u32, ValueId>,
    pub mutable_locals: Set<u32>,
    pub loops: Seq<LoopContext>,
    pub current: BlockId,
    pub env: LowerEnv,
}

impl ConverterView {
    /// The state of the conversion, with the code written so far.
    pub open spec fn with(self, code: Code) -> LowerState {
        LowerState {
            bindings: self.bindings,
            mutable_locals: self.mutable_locals,
            loops: self.loops,
            current: self.current,
            code,
        }
    }
}

impl<'a> View for ExpressionConverter<'a> {
    type V = ConverterView;

    closed spec fn view(&self) -> ConverterView {
        ConverterView {
            bindings: self.bindings@,
            mutable_locals: self.mutable_locals@,
            loops: self.loop_stack@,
            current: self.current_block,
            env: LowerEnv {
                functions: self.function_mapper@,
                natively_unconstrained: self.natively_unconstrained@,
                in_unconstrained: self.in_unconstrained,
                global_slots: self.global_slots@,
                replacements: replacement::replacement_views(self.lowlevel_replacements@),
            },
        }
    }
}

impl<'a> ExpressionConverter<'a> {
    /// A converter that starts to fill `entry_block`, with nothing bound.
    pub fn new_with_globals(
        function_mapper: &'a HashMap<u32, FunctionId>,
        natively_unconstrained: &'a HashSet<u32>,
        in_unconstrained: bool,
        global_slots: &'a HashMap<u32, usize>,
        lowlevel_replacements: &'a TextMap<LowLevelReplacement>,
        entry_block: BlockId,
    ) -> (converter: ExpressionConverter<'a>)
        ensures
            converter@ == (ConverterView {
                bindings: Map::empty(),
                mutable_locals: Set::empty(),
                loops: seq![],
                current: entry_block,
                env: LowerEnv {
                    functions: function_mapper@,
                    natively_unconstrained: natively_unconstrained@,
                    in_unconstrained,
                    global_slots: global_slots@,
                    replacements: replacement::replacement_views(lowlevel_replacements@),
                },
            }),
    {
        ExpressionConverter {
            bindings: HashMap::new(),
            mutable_locals: HashSet::new(),
            function_mapper,
            natively_unconstrained,
            type_converter: TypeConverter::new(),
            loop_stack: Vec::new(),
            in_unconstrained,
            global_slots,
            lowlevel_replacements,
            current_block: entry_block,
        }
    }

    /// The block that is being filled.
    pub fn current_block(&self) -> (block: BlockId)
        ensures
            block == self@.current,
    {
        self.current_block
    }

    /// Whether a local is bound.
    pub(crate) fn is_bound(&self, local: LocalId) -> (bound: bool)
        ensures
            bound == self@.bindings.contains_key(local.0),
    {
        self.bindings.contains_key(&local.0)
    }

    /// Whether a local is mutable.
    pub(crate) fn is_mutable(&self, local: LocalId) -> (mutable: bool)
        ensures
            mutable == self@.mutable_locals.contains(local.0),
    {
        self.mutable_locals.contains(&local.0)
    }

    /// Whether a loop encloses what is being converted.
    pub(crate) fn in_loop(&self) -> (in_loop: bool)
        ensures
            in_loop == (self@.loops.len() > 0),
    {
        self.loop_stack.len() > 0
    }

    /// Whether a function has code.
    pub(crate) fn knows_function(&self, function: FuncId) -> (known: bool)
        ensures
            known == self@.env.functions.contains_key(function.0),
    {
        self.function_mapper.contains_key(&function.0)
    }

    /// Whether a global has a slot.
    pub(crate) fn knows_global(&self, global: GlobalId) -> (known: bool)
        ensures
            known == self@.env.global_slots.contains_key(global.0),
    {
        self.global_slots.contains_key(&global.0)
    }

    /// The function that stands in for a low-level function in a call with this return type.
    pub(crate) fn replacement_for(&self, name: &str, return_type: &ast::Type) -> (function: Option<
        FuncId,
    >)
        ensures
            function == model::replacement_for(self@.env, name@, *return_type),
    {
        match self.lowlevel_replacements.get(name) {
            None => None,
            Some(LowLevelReplacement::Single(function)) => Some(*function),
            Some(LowLevelReplacement::ByArraySize(sizes)) => match return_type {
                ast::Type::Array(n, _) => match sizes.get(n) {
                    None => None,
                    Some(function) => Some(*function),
                },
                _ => None,
            },
        }
    }

    /// Whether an expression has code, so that it can be converted next.
    pub fn can_convert(&self, expr: &Expression, b: &HLFunctionBuilder) -> (can: bool)
        ensures
            can == (model::lower(self@.env, self@.with(b@), *expr) is Some),
    {
        let mut admission = Admission::new(self);
        admission.admits(expr, Ghost(self@.with(b@)))
    }

    /// Binds an immutable local to its value.
    pub fn bind_local(&mut self, local_id: LocalId, value: ValueId)
        ensures
            final(self)@ == (ConverterView {
                bindings: old(self)@.bindings.insert(local_id.0, value),
                ..old(self)@
            }),
    {
        self.bindings.insert(local_id.0, value);
    }

    /// An instruction without types and with one result.
    fn value(&self, b: &mut HLFunctionBuilder, op: Opcode, operands: Vec<ValueId>) -> (value:
        ValueId)
        requires
            self@.with(old(b)@).well_formed(),
            old(b)@.has_values(operands@),
        ensures
            (self@.with(final(b)@), value) == self@.with(old(b)@).value(op, operands@, seq![]),
            soundness::sound_step(self@.with(old(b)@), self@.with(final(b)@), Some(value)),
    {
        let types: Vec<Type> = Vec::new();
        assert(hlssa::type_views(types@) =~= seq![]);
        self.value_of_types(b, op, operands, types)
    }

    /// An instruction on one value, without types and with one result.
    fn value1(&self, b: &mut HLFunctionBuilder, op: Opcode, x: ValueId) -> (value: ValueId)
        requires
            self@.with(old(b)@).well_formed(),
            old(b)@.has_value(x),
        ensures
            (self@.with(final(b)@), value) == self@.with(old(b)@).value(op, seq![x], seq![]),
            soundness::sound_step(self@.with(old(b)@), self@.with(final(b)@), Some(value)),
    {
        let operands = vec![x];
        assert(operands@ =~= seq![x]);
        self.value(b, op, operands)
    }

    /// An instruction on two values, without types and with one result.
    fn value2(&self, b: &mut HLFunctionBuilder, op: Opcode, x: ValueId, y: ValueId) -> (value:
        ValueId)
        requires
            self@.with(old(b)@).well_formed(),
            old(b)@.has_value(x),
            old(b)@.has_value(y),
        ensures
            (self@.with(final(b)@), value) == self@.with(old(b)@).value(op, seq![x, y], seq![]),
            soundness::sound_step(self@.with(old(b)@), self@.with(final(b)@), Some(value)),
    {
        let operands = vec![x, y];
        assert(operands@ =~= seq![x, y]);
        self.value(b, op, operands)
    }

    /// An instruction with one type and one result.
    fn value_of_type(
        &self,
        b: &mut HLFunctionBuilder,
        op: Opcode,
        operands: Vec<ValueId>,
        typ: Type,
    ) -> (value: ValueId)
        requires
            self@.with(old(b)@).well_formed(),
            old(b)@.has_values(operands@),
        ensures
            (self@.with(final(b)@), value) == self@.with(old(b)@).value(op, operands@, seq![typ@]),
            soundness::sound_step(self@.with(old(b)@), self@.with(final(b)@), Some(value)),
    {
        let types = vec![typ];
        assert(hlssa::type_views(types@) =~= seq![typ@]);
        self.value_of_types(b, op, operands, types)
    }

    /// An instruction with one result.
    fn value_of_types(
        &self,
        b: &mut HLFunctionBuilder,
        op: Opcode,
        operands: Vec<ValueId>,
        types: Vec<Type>,
    ) -> (value: ValueId)
        requires
            self@.with(old(b)@).well_formed(),
            old(b)@.has_values(operands@),
        ensures
            (self@.with(final(b)@), value) == self@.with(old(b)@).value(
                op,
                operands@,
                hlssa::type_views(types@),
            ),
            soundness::sound_step(self@.with(old(b)@), self@.with(final(b)@), Some(value)),
    {
        let value = b.emit(self.current_block, op, operands, types);
        proof {
            let s = self@.with(old(b)@);
            soundness::lemma_emit_step(s, op, operands@, hlssa::type_views(types@), 1);
            soundness::lemma_grown(s, self@.with(b@));
        }
        value
    }

    /// An instruction without types and without results.
    fn effect(&self, b: &mut HLFunctionBuilder, op: Opcode, operands: Vec<ValueId>)
        requires
            self@.with(old(b)@).well_formed(),
            old(b)@.has_values(operands@),
        ensures
            self@.with(final(b)@) == self@.with(old(b)@).emit(op, operands@, seq![], 0),
            soundness::sound_step(self@.with(old(b)@), self@.with(final(b)@), None),
    {
        let types: Vec<Type> = Vec::new();
        assert(hlssa::type_views(types@) =~= seq![]);
        b.emit_effect(self.current_block, op, operands, types);
        proof {
            let s = self@.with(old(b)@);
            soundness::lemma_emit_step(s, op, operands@, seq![], 0);
            soundness::lemma_grown(s, self@.with(b@));
        }
    }

    /// An instruction on one value, without types and without results.
    fn effect1(&self, b: &mut HLFunctionBuilder, op: Opcode, x: ValueId)
        requires
            self@.with(old(b)@).well_formed(),
            old(b)@.has_value(x),
        ensures
            self@.with(final(b)@) == self@.with(old(b)@).emit(op, seq![x], seq![], 0),
            soundness::sound_step(self@.with(old(b)@), self@.with(final(b)@), None),
    {
        let operands = vec![x];
        assert(operands@ =~= seq![x]);
        self.effect(b, op, operands);
    }

    /// An instruction on two values, without types and without results.
    fn effect2(&self, b: &mut HLFunctionBuilder, op: Opcode, x: ValueId, y: ValueId)
        requires
            self@.with(old(b)@).well_formed(),
            old(b)@.has_value(x),
            old(b)@.has_value(y),
        ensures
            self@.with(final(b)@) == self@.with(old(b)@).emit(op, seq![x, y], seq![], 0),
            soundness::sound_step(self@.with(old(b)@), self@.with(final(b)@), None),
    {
        let operands = vec![x, y];
        assert(operands@ =~= seq![x, y]);
        self.effect(b, op, operands);
    }

    /// A constant.
    fn constant(&self, b: &mut HLFunctionBuilder, constant: Constant) -> (value: ValueId)
        requires
            self@.with(old(b)@).well_formed(),
        ensures
            (self@.with(final(b)@), value) == self@.with(old(b)@).constant_value(constant@),
            soundness::sound_step(self@.with(old(b)@), self@.with(final(b)@), Some(value)),
    {
        let value = b.emit_const(constant);
        proof {
            let s = self@.with(old(b)@);
            soundness::lemma_constant_step(s, constant@);
            soundness::lemma_grown(s, self@.with(b@));
        }
        value
    }

    /// An empty block.
    fn add_block(&self, b: &mut HLFunctionBuilder) -> (block: BlockId)
        requires
            self@.with(old(b)@).well_formed(),
        ensures
            self@.with(final(b)@) == self@.with(old(b)@).add_block(),
            block == old(b)@.next_block(),
            self@.with(final(b)@).well_formed(),
            block.0 == old(b)@.blocks.len(),
    {
        let block = b.add_block();
        proof {
            soundness::lemma_grown(self@.with(old(b)@), self@.with(b@));
            old(b)@.lemma_countable();
        }
        block
    }

    /// A parameter of a block.
    fn parameter(&self, b: &mut HLFunctionBuilder, block: BlockId, typ: Type) -> (value: ValueId)
        requires
            self@.with(old(b)@).well_formed(),
            old(b)@.has_block(block),
        ensures
            self@.with(final(b)@) == self@.with(old(b)@).parameter(block, typ@),
            value == old(b)@.next_value(),
            final(b)@.has_value(value),
            self@.with(final(b)@).well_formed(),
    {
        let value = b.add_parameter(block, typ);
        proof {
            soundness::lemma_grown(self@.with(old(b)@), self@.with(b@));
            b@.lemma_countable();
        }
        value
    }

    /// A block ended with a jump.
    fn jump(&self, b: &mut HLFunctionBuilder, from: BlockId, to: BlockId, args: Vec<ValueId>)
        requires
            self@.with(old(b)@).well_formed(),
            old(b)@.has_block(from),
            old(b)@.has_block(to),
            old(b)@.has_values(args@),
        ensures
            self@.with(final(b)@) == self@.with(old(b)@).jump(from, to, args@),
            self@.with(final(b)@).well_formed(),
    {
        b.terminate_jmp(from, to, args);
        proof {
            soundness::lemma_grown(self@.with(old(b)@), self@.with(b@));
        }
    }

    /// A block ended with a jump to one of two.
    fn branch(
        &self,
        b: &mut HLFunctionBuilder,
        from: BlockId,
        cond: ValueId,
        then_block: BlockId,
        else_block: BlockId,
    )
        requires
            self@.with(old(b)@).well_formed(),
            old(b)@.has_block(from),
            old(b)@.has_value(cond),
            old(b)@.has_block(then_block),
            old(b)@.has_block(else_block),
        ensures
            self@.with(final(b)@) == self@.with(old(b)@).branch(from, cond, then_block, else_block),
            self@.with(final(b)@).well_formed(),
    {
        b.terminate_jmp_if(from, cond, then_block, else_block);
        proof {
            soundness::lemma_grown(self@.with(old(b)@), self@.with(b@));
        }
    }

    /// The code of an identifier that is read.
    fn convert_ident(&self, ident: &Ident, b: &mut HLFunctionBuilder) -> (result: Option<ValueId>)
        requires
            self@.with(old(b)@).well_formed(),
            model::lower_ident(self@.env, self@.with(old(b)@), *ident) is Some,
        ensures
            model::lower_ident(self@.env, self@.with(old(b)@), *ident) == Some(
                (self@.with(final(b)@), result),
            ),
            soundness::sound_step(self@.with(old(b)@), self@.with(final(b)@), result),
    {
        proof {
            soundness::lemma_continues_refl(self@.with(b@));
        }
        match &ident.definition {
            Definition::Local(local_id) => {
                let value = *self.bindings.get(&local_id.0).unwrap();
                assert(self@.with(b@).bindings.contains_key(local_id.0));
                if self.mutable_locals.contains(&local_id.0) {
                    Some(self.value1(b, Opcode::Load, value))
                } else {
                    Some(value)
                }
            },
            Definition::Function(func_id) => {
                let ssa_func_id = *self.function_mapper.get(&func_id.0).unwrap();
                Some(self.constant(b, Constant::FnPtr(ssa_func_id)))
            },
            Definition::Global(global_id) => {
                let slot = *self.global_slots.get(&global_id.0).unwrap();
                let typ = self.type_converter.convert_type(&ident.typ);
                let operands: Vec<ValueId> = Vec::new();
                assert(operands@ =~= seq![]);
                Some(self.value_of_type(b, Opcode::ReadGlobal(slot as u64), operands, typ))
            },
            _ => None,
        }
    }

    /// An operator on two values.
    fn operator(
        &self,
        b: &mut HLFunctionBuilder,
        operator: BinaryOpKind,
        lhs: ValueId,
        rhs: ValueId,
    ) -> (value: ValueId)
        requires
            self@.with(old(b)@).well_formed(),
            old(b)@.has_value(lhs),
            old(b)@.has_value(rhs),
        ensures
            (self@.with(final(b)@), value) == model::lower_operator(
                self@.with(old(b)@),
                operator,
                lhs,
                rhs,
            ),
            soundness::sound_step(self@.with(old(b)@), self@.with(final(b)@), Some(value)),
    {
        match operator {
            BinaryOpKind::Add => self.binary(b, BinaryOp::Add, lhs, rhs),
            BinaryOpKind::Subtract => self.binary(b, BinaryOp::Sub, lhs, rhs),
            BinaryOpKind::Multiply => self.binary(b, BinaryOp::Mul, lhs, rhs),
            BinaryOpKind::Divide => self.binary(b, BinaryOp::Div, lhs, rhs),
            BinaryOpKind::Equal => self.binary(b, BinaryOp::Eq, lhs, rhs),
            BinaryOpKind::NotEqual => {
                let eq = self.binary(b, BinaryOp::Eq, lhs, rhs);
                self.value1(b, Opcode::Not, eq)
            },
            BinaryOpKind::Less => self.binary(b, BinaryOp::Lt, lhs, rhs),
            BinaryOpKind::LessEqual => {
                let gt = self.binary(b, BinaryOp::Lt, rhs, lhs);
                self.value1(b, Opcode::Not, gt)
            },
            BinaryOpKind::Greater => self.binary(b, BinaryOp::Lt, rhs, lhs),
            BinaryOpKind::GreaterEqual => {
                let lt = self.binary(b, BinaryOp::Lt, lhs, rhs);
                self.value1(b, Opcode::Not, lt)
            },
            BinaryOpKind::And => self.binary(b, BinaryOp::And, lhs, rhs),
            BinaryOpKind::Or => self.binary(b, BinaryOp::Or, lhs, rhs),
            BinaryOpKind::Xor => self.binary(b, BinaryOp::Xor, lhs, rhs),
            BinaryOpKind::Modulo => self.binary(b, BinaryOp::Modulo, lhs, rhs),
            BinaryOpKind::ShiftLeft => self.binary(b, BinaryOp::Shl, lhs, rhs),
            BinaryOpKind::ShiftRight => self.binary(b, BinaryOp::Shr, lhs, rhs),
        }
    }

    /// An instruction that combines two values.
    fn binary(&self, b: &mut HLFunctionBuilder, op: BinaryOp, lhs: ValueId, rhs: ValueId) -> (value:
        ValueId)
        requires
            self@.with(old(b)@).well_formed(),
            old(b)@.has_value(lhs),
            old(b)@.has_value(rhs),
        ensures
            (self@.with(final(b)@), value) == self@.with(old(b)@).binary(op, lhs, rhs),
            soundness::sound_step(self@.with(old(b)@), self@.with(final(b)@), Some(value)),
    {
        self.value2(b, Opcode::Binary(op), lhs, rhs)
    }

    /// A block ended with a jump without arguments.
    fn jump0(&self, b: &mut HLFunctionBuilder, from: BlockId, to: BlockId)
        requires
            self@.with(old(b)@).well_formed(),
            old(b)@.has_block(from),
            old(b)@.has_block(to),
        ensures
            self@.with(final(b)@) == self@.with(old(b)@).jump(from, to, seq![]),
            self@.with(final(b)@).well_formed(),
    {
        let args: Vec<ValueId> = Vec::new();
        assert(args@ =~= seq![]);
        self.jump(b, from, to, args);
    }

    /// A block ended with a jump with one argument.
    fn jump1(&self, b: &mut HLFunctionBuilder, from: BlockId, to: BlockId, arg: ValueId)
        requires
            self@.with(old(b)@).well_formed(),
            old(b)@.has_block(from),
            old(b)@.has_block(to),
            old(b)@.has_value(arg),
        ensures
            self@.with(final(b)@) == self@.with(old(b)@).jump(from, to, seq![arg]),
            self@.with(final(b)@).well_formed(),
    {
        let args = vec![arg];
        assert(args@ =~= seq![arg]);
        self.jump(b, from, to, args);
    }

    /// A fresh pointer to a value.
    fn pointer_to(&self, b: &mut HLFunctionBuilder, value: ValueId, typ: Type) -> (pointer: ValueId)
        requires
            self@.with(old(b)@).well_formed(),
            old(b)@.has_value(value),
        ensures
            ({
                let (s1, p) = self@.with(old(b)@).value(Opcode::Alloc, seq![], seq![typ@]);
                &&& pointer == p
                &&& self@.with(final(b)@) == s1.emit(Opcode::Store, seq![p, value], seq![], 0)
            }),
            soundness::sound_step(self@.with(old(b)@), self@.with(final(b)@), Some(pointer)),
    {
        let operands: Vec<ValueId> = Vec::new();
        assert(operands@ =~= seq![]);
        let pointer = self.value_of_type(b, Opcode::Alloc, operands, typ);
        self.effect2(b, Opcode::Store, pointer, value);
        pointer
    }

    /// Binds a mutable local to a fresh pointer, and writes its first value through it.
    pub fn bind_local_mut(
        &mut self,
        local_id: LocalId,
        value_id: ValueId,
        typ: Type,
        b: &mut HLFunctionBuilder,
    )
        requires
            old(self)@.with(old(b)@).well_formed(),
            old(b)@.has_value(value_id),
        ensures
            final(self)@.env == old(self)@.env,
            final(self)@.with(final(b)@) == old(self)@.with(old(b)@).bind_mut(
                local_id,
                value_id,
                typ@,
            ),
            soundness::sound_step(old(self)@.with(old(b)@), final(self)@.with(final(b)@), None),
    {
        let ptr = self.pointer_to(b, value_id, typ);
        let ghost s1 = self@.with(b@);
        self.bindings.insert(local_id.0, ptr);
        self.mutable_locals.insert(local_id.0);
        proof {
            soundness::lemma_bound(s1, self@.with(b@));
        }
    }

    /// The number of results that a call has: none for unit, one otherwise (a tuple is one value).
    fn return_size(&self, typ: &ast::Type) -> (size: usize)
        ensures
            size == model::return_size(*typ),
    {
        match typ {
            ast::Type::Unit => 0,
            _ => 1,
        }
    }

    /// A call, and its result if it has one.
    fn call_to(
        &self,
        b: &mut HLFunctionBuilder,
        op: Opcode,
        operands: Vec<ValueId>,
        return_type: &ast::Type,
    ) -> (result: Option<ValueId>)
        requires
            self@.with(old(b)@).well_formed(),
            old(b)@.has_values(operands@),
        ensures
            (self@.with(final(b)@), result) == model::lower_call_to(
                self@.with(old(b)@),
                op,
                operands@,
                *return_type,
            ),
            soundness::sound_step(self@.with(old(b)@), self@.with(final(b)@), result),
    {
        if self.return_size(return_type) == 0 {
            self.effect(b, op, operands);
            None
        } else {
            Some(self.value(b, op, operands))
        }
    }

    /// Reads through a pointer, if the expression that gave it is a reference.
    fn load_reference(
        &self,
        b: &mut HLFunctionBuilder,
        value: ValueId,
        typ: &Option<ast::Type>,
    ) -> (loaded: ValueId)
        requires
            self@.with(old(b)@).well_formed(),
            old(b)@.has_value(value),
        ensures
            (self@.with(final(b)@), loaded) == self@.with(old(b)@).load_reference(value, *typ),
            soundness::sound_step(self@.with(old(b)@), self@.with(final(b)@), Some(loaded)),
    {
        proof {
            soundness::lemma_continues_refl(self@.with(b@));
        }
        match typ {
            Some(ast::Type::Reference(_, _)) => self.value1(b, Opcode::Load, value),
            _ => value,
        }
    }

    /// The part of a value that a step leads to.
    fn part(&self, b: &mut HLFunctionBuilder, whole: ValueId, step: AccessStep) -> (part: ValueId)
        requires
            self@.with(old(b)@).well_formed(),
            old(b)@.has_value(whole),
            step matches AccessStep::Index(index) ==> old(b)@.has_value(index),
        ensures
            (self@.with(final(b)@), part) == model::lower_part(self@.with(old(b)@), whole, step),
            soundness::sound_step(self@.with(old(b)@), self@.with(final(b)@), Some(part)),
    {
        match step {
            AccessStep::Index(index) => self.value2(b, Opcode::ArrayGet, whole, index),
            AccessStep::Field(field) => self.value1(b, Opcode::TupleProj(field), whole),
        }
    }

    /// A tuple with one field replaced: all fields are taken out, and put together again.
    fn synthesize_tuple_set(
        &self,
        tuple: ValueId,
        target_field: usize,
        new_value: ValueId,
        fields: &Vec<ast::Type>,
        b: &mut HLFunctionBuilder,
    ) -> (value: ValueId)
        requires
            self@.with(old(b)@).well_formed(),
            old(b)@.has_value(tuple),
            old(b)@.has_value(new_value),
        ensures
            ({
                let (s1, elements) = model::lower_fields(
                    self@.with(old(b)@),
                    tuple,
                    target_field,
                    new_value,
                    fields@.len(),
                );
                (self@.with(final(b)@), value) == s1.value(
                    Opcode::MkTuple,
                    elements,
                    type_converter::ssa_types(fields@),
                )
            }),
            soundness::sound_step(self@.with(old(b)@), self@.with(final(b)@), Some(value)),
    {
        let ghost s0 = self@.with(b@);
        let mut elements: Vec<ValueId> = Vec::new();
        proof {
            soundness::lemma_continues_refl(s0);
            assert(elements@ =~= seq![]);
        }
        let mut i: usize = 0;
        while i < fields.len()
            invariant
                i <= fields@.len(),
                s0.well_formed(),
                (self@.with(b@), elements@) == model::lower_fields(
                    s0,
                    tuple,
                    target_field,
                    new_value,
                    i as nat,
                ),
                soundness::sound_step(s0, self@.with(b@), None),
                s0.code.has_value(tuple),
                s0.code.has_value(new_value),
                b@.has_values(elements@),
            decreases fields@.len() - i,
        {
            let elem = if i == target_field {
                new_value
            } else {
                self.value1(b, Opcode::TupleProj(i), tuple)
            };
            elements.push(elem);
            i += 1;
        }
        let element_types = self.type_converter.convert_types(fields);
        self.value_of_types(b, Opcode::MkTuple, elements, element_types)
    }

    /// A value with the part that a step leads to replaced.
    fn replace_part(
        &self,
        b: &mut HLFunctionBuilder,
        whole: ValueId,
        step: AccessStep,
        typ: &ast::Type,
        part: ValueId,
    ) -> (value: ValueId)
        requires
            self@.with(old(b)@).well_formed(),
            old(b)@.has_value(whole),
            old(b)@.has_value(part),
            step matches AccessStep::Index(index) ==> old(b)@.has_value(index),
        ensures
            (self@.with(final(b)@), value) == model::lower_replace_part(
                self@.with(old(b)@),
                whole,
                step,
                *typ,
                part,
            ),
            soundness::sound_step(self@.with(old(b)@), self@.with(final(b)@), Some(value)),
    {
        proof {
            soundness::lemma_continues_refl(self@.with(b@));
        }
        match step {
            AccessStep::Index(index) => {
                let operands = vec![whole, index, part];
                assert(operands@ =~= seq![whole, index, part]);
                self.value(b, Opcode::ArraySet, operands)
            },
            AccessStep::Field(field) => match typ {
                ast::Type::Tuple(fields) => {
                    self.synthesize_tuple_set(whole, field, part, fields, b)
                },
                _ => whole,
            },
        }
    }

    /// A value with the part at the end of a path replaced. The path runs from step `from` on.
    fn replace(
        &self,
        b: &mut HLFunctionBuilder,
        whole: ValueId,
        typ: &ast::Type,
        path: &Vec<AccessStep>,
        from: usize,
        new_value: ValueId,
    ) -> (value: ValueId)
        requires
            self@.with(old(b)@).well_formed(),
            old(b)@.has_value(whole),
            old(b)@.has_value(new_value),
            has_path(old(b)@, path@),
            from <= path@.len(),
            model::lower_replace(
                self@.with(old(b)@),
                whole,
                *typ,
                path@.skip(from as int),
                new_value,
            ) is Some,
        ensures
            Some((self@.with(final(b)@), value)) == model::lower_replace(
                self@.with(old(b)@),
                whole,
                *typ,
                path@.skip(from as int),
                new_value,
            ),
            soundness::sound_step(self@.with(old(b)@), self@.with(final(b)@), Some(value)),
        decreases path@.len() - from,
    {
        proof {
            soundness::lemma_continues_refl(self@.with(b@));
        }
        if from == path.len() {
            return new_value;
        }
        let step = path[from];
        proof {
            assert(path@.skip(from as int)[0] == step);
            assert(path@.skip(from as int).drop_first() =~= path@.skip(from + 1));
        }
        let part = self.part(b, whole, step);
        let inner: &ast::Type = match (step, typ) {
            (AccessStep::Index(_), ast::Type::Array(_, element)) => element,
            (AccessStep::Index(_), ast::Type::Vector(element)) => element,
            (AccessStep::Field(field), ast::Type::Tuple(fields)) => &fields[field],
            _ => typ,
        };
        let new_part = self.replace(b, part, inner, path, from + 1, new_value);
        self.replace_part(b, whole, step, typ, new_part)
    }

    /// The value that a place holds, where the place is a variable or is reached through pointers.
    fn convert_lvalue_to_value(&self, lvalue: &LValue, b: &mut HLFunctionBuilder) -> (value: ValueId)
        requires
            self@.with(old(b)@).well_formed(),
            model::lower_lvalue_read(self@.env, self@.with(old(b)@), *lvalue) is Some,
        ensures
            model::lower_lvalue_read(self@.env, self@.with(old(b)@), *lvalue) == Some(
                (self@.with(final(b)@), value),
            ),
            soundness::sound_step(self@.with(old(b)@), self@.with(final(b)@), Some(value)),
        decreases lvalue,
    {
        match lvalue {
            LValue::Ident(ident) => self.convert_ident(ident, b).unwrap(),
            LValue::Dereference { reference, .. } => {
                let ptr = self.convert_lvalue_to_value(reference, b);
                self.value1(b, Opcode::Load, ptr)
            },
            _ => ValueId(0),
        }
    }

    /// The truth value of a condition that is known whatever the inputs of the program.
    pub(crate) fn try_eval_const_bool(&self, expr: &Expression) -> (known: Option<bool>)
        ensures
            known == model::const_bool(self@.env, *expr),
        decreases expr,
    {
        match &expr.kind {
            ExpressionKind::Unary(unary) => {
                if matches!(unary.operator, UnaryOp::Not) && !unary.skip {
                    match self.try_eval_const_bool(&unary.rhs) {
                        Some(b) => Some(!b),
                        None => None,
                    }
                } else {
                    None
                }
            },
            ExpressionKind::Call(call) => {
                if let ExpressionKind::Ident(ident) = &call.func.kind {
                    if let Definition::Builtin(name) = &ident.definition {
                        if same_text(name.as_str(), "is_unconstrained") {
                            return Some(self.in_unconstrained);
                        }
                    }
                }
                None
            },
            _ => None,
        }
    }

    /// Several constants.
    fn constants(&self, b: &mut HLFunctionBuilder, constants: &Vec<Constant>) -> (values: Vec<
        ValueId,
    >)
        requires
            self@.with(old(b)@).well_formed(),
        ensures
            (self@.with(final(b)@), values@) == model::lower_constants(
                self@.with(old(b)@),
                constants@.map_values(|c: Constant| c@),
            ),
            soundness::sound_step(self@.with(old(b)@), self@.with(final(b)@), None),
            final(b)@.has_values(values@),
    {
        let ghost s0 = self@.with(b@);
        let ghost views = constants@.map_values(|c: Constant| c@);
        let mut values: Vec<ValueId> = Vec::new();
        proof {
            soundness::lemma_continues_refl(s0);
            assert(values@ =~= seq![]);
            assert(views.take(0).len() == 0);
        }
        let mut i: usize = 0;
        while i < constants.len()
            invariant
                i <= constants@.len(),
                s0.well_formed(),
                views == constants@.map_values(|c: Constant| c@),
                (self@.with(b@), values@) == model::lower_constants(s0, views.take(i as int)),
                soundness::sound_step(s0, self@.with(b@), None),
                b@.has_values(values@),
            decreases constants@.len() - i,
        {
            let v = self.constant(b, constants[i]);
            values.push(v);
            proof {
                let longer = views.take(i + 1);
                assert(longer.drop_last() =~= views.take(i as int));
                assert(longer.last() == constants@[i as int]@);
            }
            i += 1;
        }
        assert(views.take(views.len() as int) =~= views);
        values
    }

    /// An array of constants.
    fn constant_array(&self, b: &mut HLFunctionBuilder, constants: &Vec<Constant>, typ: Type) -> (value:
        ValueId)
        requires
            self@.with(old(b)@).well_formed(),
        ensures
            (self@.with(final(b)@), value) == model::lower_constant_array(
                self@.with(old(b)@),
                constants@.map_values(|c: Constant| c@),
                typ@,
            ),
            soundness::sound_step(self@.with(old(b)@), self@.with(final(b)@), Some(value)),
    {
        let values = self.constants(b, constants);
        let len = constants.len();
        self.value_of_type(
            b,
            Opcode::MkSeq(SequenceTargetType::Array(len)),
            values,
            typ,
        )
    }

    /// A cast of a value.
    fn cast_value(
        &self,
        b: &mut HLFunctionBuilder,
        value: ValueId,
        source: (usize, bool),
        target: (CastTarget, usize),
    ) -> (cast: ValueId)
        requires
            self@.with(old(b)@).well_formed(),
            old(b)@.has_value(value),
        ensures
            (self@.with(final(b)@), cast) == model::lower_cast_value(
                self@.with(old(b)@),
                value,
                source,
                target,
            ),
            soundness::sound_step(self@.with(old(b)@), self@.with(final(b)@), Some(cast)),
    {
        proof {
            soundness::lemma_continues_refl(self@.with(b@));
        }
        let (src_bits, src_signed) = source;
        let (cast_to, target_bits) = target;
        let narrowed = if src_bits > 0 && target_bits < src_bits {
            self.value1(b, Opcode::BitRange(0, target_bits), value)
        } else {
            value
        };
        let extended = if src_signed && src_bits > 0 && target_bits > src_bits {
            self.value1(b, Opcode::Sext(src_bits, target_bits), narrowed)
        } else {
            narrowed
        };
        self.value1(b, Opcode::Cast(cast_to), extended)
    }

    /// The loop index of a `for` loop advanced by one.
    fn next_index(&self, b: &mut HLFunctionBuilder, index: ValueId, bits: usize) -> (next: ValueId)
        requires
            self@.with(old(b)@).well_formed(),
            old(b)@.has_value(index),
        ensures
            (self@.with(final(b)@), next) == self@.with(old(b)@).next_index(index, bits),
            soundness::sound_step(self@.with(old(b)@), self@.with(final(b)@), Some(next)),
    {
        let one = self.constant(b, Constant::U(bits, 1));
        self.binary(b, BinaryOp::Add, index, one)
    }

    /// Ends the current block with the step to the next round of a loop.
    fn next_round(&self, b: &mut HLFunctionBuilder, context: LoopContext)
        requires
            self@.with(old(b)@).well_formed(),
            self@.with(old(b)@).has_loop(context),
        ensures
            self@.with(final(b)@) == self@.with(old(b)@).next_round(context),
            self@.with(final(b)@).well_formed(),
            old(b)@.values.len() <= final(b)@.values.len(),
            old(b)@.blocks.len() == final(b)@.blocks.len(),
            soundness::keeps(self@.with(old(b)@), self@.with(final(b)@)),
    {
        let ghost s0 = self@.with(b@);
        proof {
            soundness::lemma_keeps_refl(s0);
        }
        if let Some((index, bits)) = context.for_loop_index {
            let next = self.next_index(b, index, bits);
            let ghost s1 = self@.with(b@);
            self.jump1(b, self.current_block, context.loop_header, next);
            proof {
                soundness::lemma_keeps_terminate(
                    s0,
                    s1,
                    s0.current,
                    TerminatorView::Jmp(context.loop_header, seq![next]),
                );
            }
        } else {
            self.jump0(b, self.current_block, context.loop_header);
            proof {
                soundness::lemma_keeps_terminate(
                    s0,
                    s0,
                    s0.current,
                    TerminatorView::Jmp(context.loop_header, seq![]),
                );
            }
        }
    }

    /// Ends the current block, unless it is ended already, with the step to the next round of a
    /// loop.
    fn close_round(&self, b: &mut HLFunctionBuilder, context: LoopContext)
        requires
            self@.with(old(b)@).well_formed(),
            self@.with(old(b)@).has_loop(context),
        ensures
            self@.with(final(b)@) == self@.with(old(b)@).close_round(context),
            self@.with(final(b)@).well_formed(),
            old(b)@.values.len() <= final(b)@.values.len(),
            old(b)@.blocks.len() == final(b)@.blocks.len(),
            soundness::keeps(self@.with(old(b)@), self@.with(final(b)@)),
    {
        proof {
            soundness::lemma_keeps_refl(self@.with(b@));
        }
        if !b.is_terminated(self.current_block) {
            self.next_round(b, context);
        }
    }

    /// Leaves the current block, which has been ended, for a new one that nothing leads to.
    fn into_dead_block(&mut self, b: &mut HLFunctionBuilder, Ghost(before): Ghost<LowerState>)
        requires
            old(self)@.with(old(b)@).well_formed(),
            before.well_formed(),
            soundness::keeps(before, old(self)@.with(old(b)@)),
            before.code.values.len() <= old(b)@.values.len(),
            before.code.blocks.len() <= old(b)@.blocks.len(),
            before.loops == old(self)@.loops,
        ensures
            final(self)@.env == old(self)@.env,
            final(self)@.with(final(b)@) == old(self)@.with(old(b)@).into_dead_block(),
            soundness::sound_step(before, final(self)@.with(final(b)@), None),
    {
        let ghost s1 = self@.with(b@);
        let dead = self.add_block(b);
        self.current_block = dead;
        proof {
            let s2 = self@.with(b@);
            soundness::lemma_keeps_add_block(before, s1);
            soundness::lemma_keeps_at(before, s1.add_block(), dead);
            soundness::lemma_grown(s1, s2);
        }
    }
}

impl<'a> ExpressionConverter<'a> {
    /// Converts an expression to instructions. The value that holds its result is returned,
    /// if it has one.
    pub fn convert_expression(&mut self, expr: &Expression, b: &mut HLFunctionBuilder) -> (result:
        Option<ValueId>)
        requires
            old(self)@.with(old(b)@).well_formed(),
            model::lower(old(self)@.env, old(self)@.with(old(b)@), *expr) is Some,
        ensures
            model::lower(old(self)@.env, old(self)@.with(old(b)@), *expr) == Some(
                (final(self)@.with(final(b)@), result),
            ),
            final(self)@.env == old(self)@.env,
            soundness::sound_step(old(self)@.with(old(b)@), final(self)@.with(final(b)@), result),
        decreases expr, 1nat,
    {
        proof {
            soundness::lemma_continues_refl(self@.with(b@));
        }
        match &expr.kind {
            ExpressionKind::Ident(ident) => self.convert_ident(ident, b),
            ExpressionKind::Binary(binary) => self.convert_binary(binary, b),
            ExpressionKind::Let(let_expr) => self.convert_let(let_expr, b),
            ExpressionKind::Block(exprs) => self.convert_block(exprs, b),
            ExpressionKind::Constrain(inner) => self.convert_constrain(inner, b),
            ExpressionKind::Semi(inner) => {
                self.convert_expression(inner, b);
                None
            },
            ExpressionKind::Literal(lit) => self.convert_literal(lit, b),
            ExpressionKind::Tuple(exprs) => self.convert_tuple(exprs, b),
            ExpressionKind::Call(call) => self.convert_call(call, b),
            ExpressionKind::Assign(assign) => self.convert_assign(assign, b),
            ExpressionKind::For(for_expr) => self.convert_for(for_expr, b),
            ExpressionKind::Index(index) => self.convert_index(index, b),
            ExpressionKind::ExtractTupleField(tuple_expr, idx) => {
                self.convert_extract_tuple_field(tuple_expr, *idx, b)
            },
            ExpressionKind::Cast(cast) => self.convert_cast(cast, b),
            ExpressionKind::If(if_expr) => self.convert_if(if_expr, b),
            ExpressionKind::Unary(unary) => self.convert_unary(unary, b),
            ExpressionKind::Clone(inner) => self.convert_expression(inner, b),
            ExpressionKind::Drop(_) => None,
            ExpressionKind::Break => {
                self.convert_break(b);
                None
            },
            ExpressionKind::Continue => {
                self.convert_continue(b);
                None
            },
            ExpressionKind::While(while_expr) => self.convert_while(while_expr, b),
            ExpressionKind::Loop(body) => self.convert_loop(body, b),
            ExpressionKind::Match => None,
        }
    }

    /// Jumps to the exit of the innermost loop.
    fn convert_break(&mut self, b: &mut HLFunctionBuilder)
        requires
            old(self)@.with(old(b)@).well_formed(),
            old(self)@.loops.len() > 0,
        ensures
            ({
                let s = old(self)@.with(old(b)@);
                final(self)@.with(final(b)@) == s.jump(
                    s.current,
                    s.loops.last().exit_block,
                    seq![],
                ).into_dead_block()
            }),
            final(self)@.env == old(self)@.env,
            soundness::sound_step(old(self)@.with(old(b)@), final(self)@.with(final(b)@), None),
    {
        let ghost s0 = self@.with(b@);
        let context = self.loop_stack[self.loop_stack.len() - 1];
        assert(s0.has_loop(s0.loops[s0.loops.len() - 1]));
        let from = self.current_block;
        self.jump0(b, from, context.exit_block);
        proof {
            soundness::lemma_keeps_refl(s0);
            soundness::lemma_keeps_terminate(
                s0,
                s0,
                from,
                TerminatorView::Jmp(context.exit_block, seq![]),
            );
        }
        self.into_dead_block(b, Ghost(s0));
    }

    /// Steps to the next round of the innermost loop.
    fn convert_continue(&mut self, b: &mut HLFunctionBuilder)
        requires
            old(self)@.with(old(b)@).well_formed(),
            old(self)@.loops.len() > 0,
        ensures
            ({
                let s = old(self)@.with(old(b)@);
                final(self)@.with(final(b)@) == s.next_round(s.loops.last()).into_dead_block()
            }),
            final(self)@.env == old(self)@.env,
            soundness::sound_step(old(self)@.with(old(b)@), final(self)@.with(final(b)@), None),
    {
        let ghost s0 = self@.with(b@);
        let context = self.loop_stack[self.loop_stack.len() - 1];
        assert(s0.has_loop(s0.loops[s0.loops.len() - 1]));
        self.next_round(b, context);
        self.into_dead_block(b, Ghost(s0));
    }

    /// Converts an expression whose value is needed.
    fn convert_value(&mut self, expr: &Expression, b: &mut HLFunctionBuilder) -> (value: ValueId)
        requires
            old(self)@.with(old(b)@).well_formed(),
            model::lower_value(old(self)@.env, old(self)@.with(old(b)@), *expr) is Some,
        ensures
            model::lower_value(old(self)@.env, old(self)@.with(old(b)@), *expr) == Some(
                (final(self)@.with(final(b)@), value),
            ),
            final(self)@.env == old(self)@.env,
            soundness::sound_step(
                old(self)@.with(old(b)@),
                final(self)@.with(final(b)@),
                Some(value),
            ),
        decreases expr, 2nat,
    {
        self.convert_expression(expr, b).unwrap()
    }

    /// Converts expressions whose values are needed, one after the other.
    fn convert_values(&mut self, exprs: &Vec<Expression>, b: &mut HLFunctionBuilder) -> (values:
        Vec<ValueId>)
        requires
            old(self)@.with(old(b)@).well_formed(),
            model::lower_values(
                old(self)@.env,
                old(self)@.with(old(b)@),
                exprs@,
                exprs@.len(),
            ) is Some,
        ensures
            model::lower_values(old(self)@.env, old(self)@.with(old(b)@), exprs@, exprs@.len())
                == Some((final(self)@.with(final(b)@), values@)),
            final(self)@.env == old(self)@.env,
            soundness::sound_step(old(self)@.with(old(b)@), final(self)@.with(final(b)@), None),
            final(b)@.has_values(values@),
        decreases exprs, 0nat,
    {
        let ghost s0 = self@.with(b@);
        let ghost env = self@.env;
        let mut values: Vec<ValueId> = Vec::new();
        proof {
            soundness::lemma_continues_refl(s0);
            assert(values@ =~= seq![]);
        }
        let mut i: usize = 0;
        while i < exprs.len()
            invariant
                i <= exprs@.len(),
                s0.well_formed(),
                self@.env == env,
                model::lower_values(env, s0, exprs@, exprs@.len()) is Some,
                model::lower_values(env, s0, exprs@, i as nat) == Some((self@.with(b@), values@)),
                soundness::sound_step(s0, self@.with(b@), None),
                b@.has_values(values@),
            decreases exprs@.len() - i,
        {
            proof {
                lemma_values_prefix(env, s0, exprs@, (i + 1) as nat, exprs@.len());
            }
            let value = self.convert_value(&exprs[i], b);
            values.push(value);
            i += 1;
        }
        values
    }

    /// Converts the expressions of a block. Its value is that of the last.
    fn convert_block(&mut self, exprs: &Vec<Expression>, b: &mut HLFunctionBuilder) -> (result:
        Option<ValueId>)
        requires
            old(self)@.with(old(b)@).well_formed(),
            model::lower_block(
                old(self)@.env,
                old(self)@.with(old(b)@),
                exprs@,
                exprs@.len(),
            ) is Some,
        ensures
            model::lower_block(old(self)@.env, old(self)@.with(old(b)@), exprs@, exprs@.len())
                == Some((final(self)@.with(final(b)@), result)),
            final(self)@.env == old(self)@.env,
            soundness::sound_step(old(self)@.with(old(b)@), final(self)@.with(final(b)@), result),
        decreases exprs, 0nat,
    {
        let ghost s0 = self@.with(b@);
        let ghost env = self@.env;
        let mut last_result: Option<ValueId> = None;
        proof {
            soundness::lemma_continues_refl(s0);
        }
        let mut i: usize = 0;
        while i < exprs.len()
            invariant
                i <= exprs@.len(),
                s0.well_formed(),
                self@.env == env,
                model::lower_block(env, s0, exprs@, exprs@.len()) is Some,
                model::lower_block(env, s0, exprs@, i as nat) == Some(
                    (self@.with(b@), last_result),
                ),
                soundness::sound_step(s0, self@.with(b@), last_result),
            decreases exprs@.len() - i,
        {
            proof {
                lemma_block_prefix(env, s0, exprs@, (i + 1) as nat, exprs@.len());
            }
            last_result = self.convert_expression(&exprs[i], b);
            i += 1;
        }
        last_result
    }

    /// Converts a binary operation.
    fn convert_binary(&mut self, binary: &Binary, b: &mut HLFunctionBuilder) -> (result: Option<
        ValueId,
    >)
        requires
            old(self)@.with(old(b)@).well_formed(),
            model::lower_binary(old(self)@.env, old(self)@.with(old(b)@), *binary) is Some,
        ensures
            model::lower_binary(old(self)@.env, old(self)@.with(old(b)@), *binary) == Some(
                (final(self)@.with(final(b)@), result),
            ),
            final(self)@.env == old(self)@.env,
            soundness::sound_step(old(self)@.with(old(b)@), final(self)@.with(final(b)@), result),
        decreases binary, 0nat,
    {
        let lhs = self.convert_value(&binary.lhs, b);
        let rhs = self.convert_value(&binary.rhs, b);
        Some(self.operator(b, binary.operator, lhs, rhs))
    }

    /// Converts a `let`.
    fn convert_let(&mut self, let_expr: &Let, b: &mut HLFunctionBuilder) -> (result: Option<ValueId>)
        requires
            old(self)@.with(old(b)@).well_formed(),
            model::lower_let(old(self)@.env, old(self)@.with(old(b)@), *let_expr) is Some,
        ensures
            model::lower_let(old(self)@.env, old(self)@.with(old(b)@), *let_expr) == Some(
                (final(self)@.with(final(b)@), result),
            ),
            final(self)@.env == old(self)@.env,
            soundness::sound_step(old(self)@.with(old(b)@), final(self)@.with(final(b)@), result),
        decreases let_expr, 0nat,
    {
        let value = match self.convert_expression(&let_expr.expression, b) {
            Some(value) => value,
            None => {
                // A unit binding holds the empty tuple.
                let operands: Vec<ValueId> = Vec::new();
                assert(operands@ =~= seq![]);
                self.value(b, Opcode::MkTuple, operands)
            },
        };
        if let_expr.mutable {
            if let Some(ast_type) = &let_expr.expression.return_type {
                let typ = self.type_converter.convert_type(ast_type);
                self.bind_local_mut(let_expr.id, value, typ, b);
            }
        } else {
            let ghost s1 = self@.with(b@);
            self.bind_local(let_expr.id, value);
            proof {
                soundness::lemma_bound(s1, self@.with(b@));
            }
        }
        None
    }

    /// Converts an element at an index.
    fn convert_index(&mut self, index: &Index, b: &mut HLFunctionBuilder) -> (result: Option<
        ValueId,
    >)
        requires
            old(self)@.with(old(b)@).well_formed(),
            model::lower_index(old(self)@.env, old(self)@.with(old(b)@), *index) is Some,
        ensures
            model::lower_index(old(self)@.env, old(self)@.with(old(b)@), *index) == Some(
                (final(self)@.with(final(b)@), result),
            ),
            final(self)@.env == old(self)@.env,
            soundness::sound_step(old(self)@.with(old(b)@), final(self)@.with(final(b)@), result),
        decreases index, 0nat,
    {
        let collection = self.convert_value(&index.collection, b);
        let array = self.load_reference(b, collection, &index.collection.return_type);
        let idx = self.convert_value(&index.index, b);
        Some(self.value2(b, Opcode::ArrayGet, array, idx))
    }

    /// Converts a field of a tuple.
    fn convert_extract_tuple_field(
        &mut self,
        tuple_expr: &Expression,
        idx: usize,
        b: &mut HLFunctionBuilder,
    ) -> (result: Option<ValueId>)
        requires
            old(self)@.with(old(b)@).well_formed(),
            model::lower_extract(
                old(self)@.env,
                old(self)@.with(old(b)@),
                *tuple_expr,
                idx,
            ) is Some,
        ensures
            model::lower_extract(old(self)@.env, old(self)@.with(old(b)@), *tuple_expr, idx)
                == Some((final(self)@.with(final(b)@), result)),
            final(self)@.env == old(self)@.env,
            soundness::sound_step(old(self)@.with(old(b)@), final(self)@.with(final(b)@), result),
        decreases tuple_expr, 3nat,
    {
        let value = self.convert_value(tuple_expr, b);
        let tuple = self.load_reference(b, value, &tuple_expr.return_type);
        Some(self.value1(b, Opcode::TupleProj(idx), tuple))
    }

    /// Converts a constraint.
    fn convert_constrain(&mut self, constraint_expr: &Expression, b: &mut HLFunctionBuilder) -> (result:
        Option<ValueId>)
        requires
            old(self)@.with(old(b)@).well_formed(),
            model::lower_constrain(
                old(self)@.env,
                old(self)@.with(old(b)@),
                *constraint_expr,
            ) is Some,
        ensures
            model::lower_constrain(old(self)@.env, old(self)@.with(old(b)@), *constraint_expr)
                == Some((final(self)@.with(final(b)@), result)),
            final(self)@.env == old(self)@.env,
            soundness::sound_step(old(self)@.with(old(b)@), final(self)@.with(final(b)@), result),
        decreases constraint_expr, 3nat,
    {
        let value = self.convert_value(constraint_expr, b);
        self.effect1(b, Opcode::AssertBool, value);
        None
    }

    /// Converts a cast.
    fn convert_cast(&mut self, cast: &Cast, b: &mut HLFunctionBuilder) -> (result: Option<ValueId>)
        requires
            old(self)@.with(old(b)@).well_formed(),
            model::lower_cast(old(self)@.env, old(self)@.with(old(b)@), *cast) is Some,
        ensures
            model::lower_cast(old(self)@.env, old(self)@.with(old(b)@), *cast) == Some(
                (final(self)@.with(final(b)@), result),
            ),
            final(self)@.env == old(self)@.env,
            soundness::sound_step(old(self)@.with(old(b)@), final(self)@.with(final(b)@), result),
        decreases cast, 0nat,
    {
        let value = self.convert_value(&cast.lhs, b);
        let source = cast_source(&cast.lhs.return_type);
        let target = cast_target(&cast.typ).unwrap();
        Some(self.cast_value(b, value, source, target))
    }
}

impl<'a> ExpressionConverter<'a> {
    /// Converts a tuple.
    fn convert_tuple(
        &mut self,
        exprs: &Vec<Expression>,
        b: &mut HLFunctionBuilder,
    ) -> (result: Option<ValueId>)
        requires
            old(self)@.with(old(b)@).well_formed(),
            model::lower_tuple(old(self)@.env, old(self)@.with(old(b)@), *exprs) is Some,
        ensures
            model::lower_tuple(old(self)@.env, old(self)@.with(old(b)@), *exprs) == Some(
                (final(self)@.with(final(b)@), result),
            ),
            final(self)@.env == old(self)@.env,
            soundness::sound_step(old(self)@.with(old(b)@), final(self)@.with(final(b)@), result),
        decreases exprs, 2nat,
    {
        let values = self.convert_values(exprs, b);
        let mut types: Vec<Type> = Vec::new();
        let mut i: usize = 0;
        while i < exprs.len()
            invariant
                i <= exprs@.len(),
                types@.len() == i,
                model::all_fields_typed(exprs@),
                forall|j: int|
                    0 <= j < i ==> Some((#[trigger] types@[j])@) == model::field_type(exprs@[j]),
            decreases exprs@.len() - i,
        {
            let typ = self.field_type(&exprs[i]);
            types.push(typ);
            i += 1;
        }
        assert(hlssa::type_views(types@) =~= model::field_types(exprs@));
        Some(self.value_of_types(b, Opcode::MkTuple, values, types))
    }

    /// The type of a tuple's field.
    fn field_type(&self, expr: &Expression) -> (typ: Type)
        requires
            model::field_type(*expr) is Some,
        ensures
            model::field_type(*expr) == Some(typ@),
    {
        if let ExpressionKind::Ident(ident) = &expr.kind {
            if let Definition::Function(_) = &ident.definition {
                return Type::Function;
            }
        }
        match &expr.return_type {
            Some(typ) => self.type_converter.convert_type(typ),
            None => Type::Function,
        }
    }

    /// Converts an array or a vector.
    fn convert_array_literal(
        &mut self,
        array_lit: &ArrayLiteral,
        b: &mut HLFunctionBuilder,
    ) -> (result: Option<ValueId>)
        requires
            old(self)@.with(old(b)@).well_formed(),
            model::lower_array(old(self)@.env, old(self)@.with(old(b)@), *array_lit) is Some,
        ensures
            model::lower_array(old(self)@.env, old(self)@.with(old(b)@), *array_lit) == Some(
                (final(self)@.with(final(b)@), result),
            ),
            final(self)@.env == old(self)@.env,
            soundness::sound_step(old(self)@.with(old(b)@), final(self)@.with(final(b)@), result),
        decreases array_lit, 0nat,
    {
        let elements = self.convert_values(&array_lit.contents, b);
        let (seq_type, elem_ast_type): (SequenceTargetType, &ast::Type) = match &array_lit.typ {
            ast::Type::Array(len, elem_type) => {
                (SequenceTargetType::Array(*len as usize), elem_type)
            },
            ast::Type::Vector(elem_type) => (SequenceTargetType::Slice, elem_type),
            other => (SequenceTargetType::Slice, other),
        };
        let elem_type = self.type_converter.convert_type(elem_ast_type);
        Some(self.value_of_type(b, Opcode::MkSeq(seq_type), elements, elem_type))
    }

    /// Converts a literal.
    fn convert_literal(
        &mut self,
        lit: &Literal,
        b: &mut HLFunctionBuilder,
    ) -> (result: Option<ValueId>)
        requires
            old(self)@.with(old(b)@).well_formed(),
            model::lower_literal(old(self)@.env, old(self)@.with(old(b)@), *lit) is Some,
        ensures
            model::lower_literal(old(self)@.env, old(self)@.with(old(b)@), *lit) == Some(
                (final(self)@.with(final(b)@), result),
            ),
            final(self)@.env == old(self)@.env,
            soundness::sound_step(old(self)@.with(old(b)@), final(self)@.with(final(b)@), result),
        decreases lit, 0nat,
    {
        proof {
            soundness::lemma_continues_refl(self@.with(b@));
        }
        match lit {
            Literal::Bool(bv) => {
                let bit: u128 = if *bv {
                    1
                } else {
                    0
                };
                Some(self.constant(b, Constant::U(1, bit)))
            },
            Literal::Integer(number, typ) => {
                let constant = integer_constant(number, typ);
                Some(self.constant(b, constant))
            },
            Literal::Unit => None,
            Literal::Array(array_lit) => self.convert_array_literal(array_lit, b),
            Literal::Vector(array_lit) => self.convert_array_literal(array_lit, b),
            Literal::Repeated { element, length, is_vector, typ } => {
                let elem_ast_type: &ast::Type = match typ {
                    ast::Type::Array(_, elem_type) => elem_type,
                    ast::Type::Vector(elem_type) => elem_type,
                    other => other,
                };
                let element_val = self.convert_value(element, b);
                let len = *length as usize;
                let seq_type = if *is_vector {
                    SequenceTargetType::Slice
                } else {
                    SequenceTargetType::Array(len)
                };
                let elem_type = self.type_converter.convert_type(elem_ast_type);
                let operands = vec![element_val];
                assert(operands@ =~= seq![element_val]);
                Some(self.value_of_type(b, Opcode::MkRepeated(seq_type, len), operands, elem_type))
            },
            Literal::Str(text) => {
                let bytes = byte_constants(text.as_str());
                Some(self.constant_array(b, &bytes, Type::U(8)))
            },
            Literal::FmtStr(fragments, captures) => {
                let codepoints = codepoint_constants(fragments);
                let len = codepoints.len();
                let text = self.constant_array(b, &codepoints, Type::U(32));
                let text_type = Type::Array(Box::new(Type::U(32)), len);
                if let ExpressionKind::Tuple(exprs) = &captures.kind {
                    let mut values = self.convert_values(exprs, b);
                    let mut types = self.expression_types(exprs);
                    let ghost captured = values@;
                    values.insert(0, text);
                    types.insert(0, text_type);
                    proof {
                        reveal_with_fuel(Type::view, 2);
                        assert(values@ =~= seq![text] + captured);
                        assert(hlssa::type_views(types@) =~= seq![text_type@] + model::expr_types(
                            exprs@,
                        ));
                    }
                    Some(self.value_of_types(b, Opcode::MkTuple, values, types))
                } else {
                    proof {
                        reveal_with_fuel(Type::view, 2);
                    }
                    let operands = vec![text];
                    assert(operands@ =~= seq![text]);
                    Some(self.value_of_type(b, Opcode::MkTuple, operands, text_type))
                }
            },
        }
    }

    /// The types of expressions.
    fn expression_types(&self, exprs: &Vec<Expression>) -> (types: Vec<Type>)
        requires
            model::all_typed(exprs@),
        ensures
            hlssa::type_views(types@) == model::expr_types(exprs@),
    {
        let mut types: Vec<Type> = Vec::new();
        let mut i: usize = 0;
        while i < exprs.len()
            invariant
                i <= exprs@.len(),
                types@.len() == i,
                model::all_typed(exprs@),
                forall|j: int|
                    0 <= j < i ==> (#[trigger] types@[j])@ == type_converter::ssa_type(
                        exprs@[j].return_type->0,
                    ),
            decreases exprs@.len() - i,
        {
            if let Some(ast_type) = &exprs[i].return_type {
                let typ = self.type_converter.convert_type(ast_type);
                types.push(typ);
            }
            i += 1;
        }
        assert(hlssa::type_views(types@) =~= model::expr_types(exprs@));
        types
    }

    /// Converts a unary operation.
    fn convert_unary(
        &mut self,
        unary: &Unary,
        b: &mut HLFunctionBuilder,
    ) -> (result: Option<ValueId>)
        requires
            old(self)@.with(old(b)@).well_formed(),
            model::lower_unary(old(self)@.env, old(self)@.with(old(b)@), *unary) is Some,
        ensures
            model::lower_unary(old(self)@.env, old(self)@.with(old(b)@), *unary) == Some(
                (final(self)@.with(final(b)@), result),
            ),
            final(self)@.env == old(self)@.env,
            soundness::sound_step(old(self)@.with(old(b)@), final(self)@.with(final(b)@), result),
        decreases unary, 0nat,
    {
        if unary.skip {
            return self.convert_expression(&unary.rhs, b);
        }
        proof {
            soundness::lemma_continues_refl(self@.with(b@));
        }
        match unary.operator {
            UnaryOp::Reference => {
                // A reference to a mutable local is the pointer it is bound to.
                if let ExpressionKind::Ident(ident) = &unary.rhs.kind {
                    if let Definition::Local(local_id) = &ident.definition {
                        if self.mutable_locals.contains(&local_id.0) {
                            let ptr = *self.bindings.get(&local_id.0).unwrap();
                            assert(self@.with(b@).bindings.contains_key(local_id.0));
                            return Some(ptr);
                        }
                    }
                }
                let value = self.convert_value(&unary.rhs, b);
                match &unary.rhs.return_type {
                    Some(ast_type) => {
                        let inner_type = self.type_converter.convert_type(ast_type);
                        Some(self.pointer_to(b, value, inner_type))
                    },
                    None => None,
                }
            },
            UnaryOp::Dereference => {
                let value = self.convert_value(&unary.rhs, b);
                Some(self.value1(b, Opcode::Load, value))
            },
            UnaryOp::Not => {
                let value = self.convert_value(&unary.rhs, b);
                Some(self.value1(b, Opcode::Not, value))
            },
            UnaryOp::Minus => {
                let value = self.convert_value(&unary.rhs, b);
                let zero = self.constant(b, zero_constant(&unary.rhs.return_type));
                Some(self.binary(b, BinaryOp::Sub, zero, value))
            },
        }
    }

    /// Converts an assignment.
    fn convert_assign(
        &mut self,
        assign: &Assign,
        b: &mut HLFunctionBuilder,
    ) -> (result: Option<ValueId>)
        requires
            old(self)@.with(old(b)@).well_formed(),
            model::lower_assign(old(self)@.env, old(self)@.with(old(b)@), *assign) is Some,
        ensures
            model::lower_assign(old(self)@.env, old(self)@.with(old(b)@), *assign) == Some(
                (final(self)@.with(final(b)@), result),
            ),
            final(self)@.env == old(self)@.env,
            soundness::sound_step(old(self)@.with(old(b)@), final(self)@.with(final(b)@), result),
        decreases assign, 0nat,
    {
        let new_value = self.convert_value(&assign.expression, b);
        let (root_ptr, root_type, steps) = self.flatten_lvalue(&assign.lvalue, b);
        if steps.len() == 0 {
            self.effect2(b, Opcode::Store, root_ptr, new_value);
            return None;
        }
        let root = self.value1(b, Opcode::Load, root_ptr);
        assert(steps@.skip(0) =~= steps@);
        let new_root = self.replace(b, root, root_type, &steps, 0, new_value);
        self.effect2(b, Opcode::Store, root_ptr, new_root);
        None
    }

    /// Finds a place: a pointer, the type of what it points to, and the path from there.
    fn flatten_lvalue<'l>(&mut self, lvalue: &'l LValue, b: &mut HLFunctionBuilder) -> (place: (
        ValueId,
        &'l ast::Type,
        Vec<AccessStep>,
    ))
        requires
            old(self)@.with(old(b)@).well_formed(),
            model::lower_place(old(self)@.env, old(self)@.with(old(b)@), *lvalue) is Some,
        ensures
            model::lower_place(old(self)@.env, old(self)@.with(old(b)@), *lvalue) == Some(
                (
                    final(self)@.with(final(b)@),
                    Place { root: place.0, typ: *place.1, path: place.2@ },
                ),
            ),
            final(self)@.env == old(self)@.env,
            soundness::sound_step(
                old(self)@.with(old(b)@),
                final(self)@.with(final(b)@),
                Some(place.0),
            ),
            has_path(final(b)@, place.2@),
        decreases lvalue, 0nat,
    {
        let no_steps: Vec<AccessStep> = Vec::new();
        proof {
            assert(no_steps@ =~= seq![]);
            soundness::lemma_continues_refl(self@.with(b@));
        }
        match lvalue {
            LValue::Ident(ident) => match &ident.definition {
                Definition::Local(local_id) => {
                    let ptr = *self.bindings.get(&local_id.0).unwrap();
                    assert(self@.with(b@).bindings.contains_key(local_id.0));
                    (ptr, &ident.typ, no_steps)
                },
                _ => (ValueId(0), &ident.typ, no_steps),
            },
            LValue::Index { array, index } => {
                let (root_ptr, root_type, mut steps) = self.flatten_lvalue(array, b);
                let idx_value = self.convert_value(index, b);
                steps.push(AccessStep::Index(idx_value));
                (root_ptr, root_type, steps)
            },
            LValue::MemberAccess { object, field_index } => {
                let (root_ptr, root_type, mut steps) = self.flatten_lvalue(object, b);
                steps.push(AccessStep::Field(*field_index));
                (root_ptr, root_type, steps)
            },
            LValue::Dereference { reference, element_type } => {
                let ptr = self.convert_lvalue_to_value(reference, b);
                (ptr, element_type, no_steps)
            },
            LValue::Clone(inner) => self.flatten_lvalue(inner, b),
        }
    }
}

impl<'a> ExpressionConverter<'a> {
    /// Converts a `loop`, which only `break` leaves.
    fn convert_loop(
        &mut self,
        body: &Expression,
        b: &mut HLFunctionBuilder,
    ) -> (result: Option<ValueId>)
        requires
            old(self)@.with(old(b)@).well_formed(),
            model::lower_loop(old(self)@.env, old(self)@.with(old(b)@), *body) is Some,
        ensures
            model::lower_loop(old(self)@.env, old(self)@.with(old(b)@), *body) == Some(
                (final(self)@.with(final(b)@), result),
            ),
            final(self)@.env == old(self)@.env,
            soundness::sound_step(old(self)@.with(old(b)@), final(self)@.with(final(b)@), result),
        decreases body, 3nat,
    {
        let ghost s0 = self@.with(b@);
        let loop_block = self.add_block(b);
        let exit_block = self.add_block(b);
        let from = self.current_block;
        self.jump0(b, from, loop_block);
        let ghost s1 = self@.with(b@);
        let context = LoopContext { loop_header: loop_block, exit_block, for_loop_index: None };
        self.current_block = loop_block;
        self.loop_stack.push(context);
        let ghost s2 = self@.with(b@);
        proof {
            soundness::lemma_keeps_refl(s0);
            soundness::lemma_keeps_add_block(s0, s0);
            soundness::lemma_keeps_add_block(s0, s0.add_block());
            soundness::lemma_keeps_terminate(
                s0,
                s0.add_block().add_block(),
                from,
                TerminatorView::Jmp(loop_block, seq![]),
            );
            soundness::lemma_keeps_at(s0, s1, loop_block);
            soundness::lemma_keeps_scope(s0, s1.at(loop_block), s2);
            soundness::lemma_entered(s1, s2, context);
        }
        self.convert_expression(body, b);
        self.finish_loop(b, context, Ghost(s0), Ghost(s2));
        None
    }

    /// Leaves a loop whose body has been converted, for its exit.
    fn finish_loop(
        &mut self,
        b: &mut HLFunctionBuilder,
        context: LoopContext,
        Ghost(before): Ghost<LowerState>,
        Ghost(entry): Ghost<LowerState>,
    )
        requires
            before.well_formed(),
            entry.well_formed(),
            soundness::keeps(before, entry),
            before.code.values.len() <= entry.code.values.len(),
            before.code.blocks.len() <= entry.code.blocks.len(),
            entry.current.0 >= before.code.blocks.len(),
            entry.loops == before.loops.push(context),
            entry.has_loop(context),
            context.exit_block.0 >= before.code.blocks.len(),
            context.exit_block != entry.current,
            entry.code.is_open(context.exit_block),
            soundness::sound_step(entry, old(self)@.with(old(b)@), None),
        ensures
            final(self)@.with(final(b)@) == old(self)@.with(old(b)@).leave().close_round(
                context,
            ).at(context.exit_block),
            final(self)@.env == old(self)@.env,
            soundness::sound_step(before, final(self)@.with(final(b)@), None),
    {
        let ghost s1 = self@.with(b@);
        self.loop_stack.pop();
        let ghost s2 = self@.with(b@);
        proof {
            assert(s2.loops =~= before.loops);
            soundness::lemma_left(before, s1, s2);
            soundness::lemma_other_block(entry, s1, context.exit_block);
            soundness::lemma_keeps_trans(before, entry, s1);
            soundness::lemma_current_kept_or_new(entry, s1);
            soundness::lemma_keeps_scope(before, s1, s2);
        }
        self.close_round(b, context);
        let ghost s3 = self@.with(b@);
        self.current_block = context.exit_block;
        proof {
            soundness::lemma_keeps_trans(before, s2, s3);
            soundness::lemma_keeps_at(before, s3, context.exit_block);
            soundness::lemma_grown(s3, self@.with(b@));
            soundness::lemma_other_block(s2, s3, context.exit_block);
        }
    }

    /// Converts a `while` loop. The test ends the header, whatever the condition wrote there: where
    /// the condition went on to further blocks, the jump to them is lost.
    fn convert_while(
        &mut self,
        while_expr: &While,
        b: &mut HLFunctionBuilder,
    ) -> (result: Option<ValueId>)
        requires
            old(self)@.with(old(b)@).well_formed(),
            model::lower_while(old(self)@.env, old(self)@.with(old(b)@), *while_expr) is Some,
        ensures
            model::lower_while(old(self)@.env, old(self)@.with(old(b)@), *while_expr) == Some(
                (final(self)@.with(final(b)@), result),
            ),
            final(self)@.env == old(self)@.env,
            soundness::sound_step(old(self)@.with(old(b)@), final(self)@.with(final(b)@), result),
        decreases while_expr, 0nat,
    {
        let ghost s0 = self@.with(b@);
        let loop_header = self.add_block(b);
        let loop_body = self.add_block(b);
        let exit_block = self.add_block(b);
        let from = self.current_block;
        self.jump0(b, from, loop_header);
        let ghost s1 = self@.with(b@);
        self.current_block = loop_header;
        let ghost s2 = self@.with(b@);
        proof {
            soundness::lemma_keeps_refl(s0);
            soundness::lemma_keeps_add_block(s0, s0);
            soundness::lemma_keeps_add_block(s0, s0.add_block());
            soundness::lemma_keeps_add_block(s0, s0.add_block().add_block());
            soundness::lemma_keeps_terminate(
                s0,
                s0.add_block().add_block().add_block(),
                from,
                TerminatorView::Jmp(loop_header, seq![]),
            );
            soundness::lemma_keeps_at(s0, s1, loop_header);
            soundness::lemma_grown(s1, s2);
        }
        let cond = self.convert_value(&while_expr.condition, b);
        let ghost s3 = self@.with(b@);
        proof {
            soundness::lemma_other_block(s2, s3, exit_block);
            soundness::lemma_keeps_trans(s0, s2, s3);
        }
        self.branch(b, loop_header, cond, loop_body, exit_block);
        let ghost s4 = self@.with(b@);
        let context = LoopContext { loop_header, exit_block, for_loop_index: None };
        self.current_block = loop_body;
        self.loop_stack.push(context);
        let ghost s5 = self@.with(b@);
        proof {
            soundness::lemma_keeps_terminate(
                s0,
                s3,
                loop_header,
                TerminatorView::JmpIf(cond, loop_body, exit_block),
            );
            soundness::lemma_keeps_at(s0, s4, loop_body);
            soundness::lemma_keeps_scope(s0, s4.at(loop_body), s5);
            soundness::lemma_entered(s4, s5, context);
        }
        self.convert_expression(&while_expr.body, b);
        self.finish_loop(b, context, Ghost(s0), Ghost(s5));
        None
    }

    /// Converts a `for` loop.
    fn convert_for(
        &mut self,
        for_expr: &For,
        b: &mut HLFunctionBuilder,
    ) -> (result: Option<ValueId>)
        requires
            old(self)@.with(old(b)@).well_formed(),
            model::lower_for(old(self)@.env, old(self)@.with(old(b)@), *for_expr) is Some,
        ensures
            model::lower_for(old(self)@.env, old(self)@.with(old(b)@), *for_expr) == Some(
                (final(self)@.with(final(b)@), result),
            ),
            final(self)@.env == old(self)@.env,
            soundness::sound_step(old(self)@.with(old(b)@), final(self)@.with(final(b)@), result),
        decreases for_expr, 0nat,
    {
        let ghost s0 = self@.with(b@);
        let start = self.convert_value(&for_expr.start_range, b);
        let end_raw = self.convert_value(&for_expr.end_range, b);
        let index_type = self.type_converter.convert_type(&for_expr.index_type);
        let index_bit_size = index_type.get_bit_size();
        let end = if for_expr.inclusive {
            self.next_index(b, end_raw, index_bit_size)
        } else {
            end_raw
        };
        let ghost s3 = self@.with(b@);
        let from = self.current_block;
        let loop_header = self.add_block(b);
        let loop_body = self.add_block(b);
        let exit_block = self.add_block(b);
        let ghost s4 = self@.with(b@);
        let loop_index = self.parameter(b, loop_header, index_type);
        let ghost s5 = self@.with(b@);
        self.current_block = loop_header;
        proof {
            soundness::lemma_keeps_refl(s3);
            soundness::lemma_keeps_add_block(s3, s3);
            soundness::lemma_keeps_add_block(s3, s3.add_block());
            soundness::lemma_keeps_add_block(s3, s3.add_block().add_block());
            soundness::lemma_keeps_parameter(s3, s4, loop_header, index_type@);
            soundness::lemma_keeps_at(s3, s5, loop_header);
            soundness::lemma_grown(s5, self@.with(b@));
        }
        let cond = self.binary(b, BinaryOp::Lt, loop_index, end);
        let ghost s6 = self@.with(b@);
        proof {
            soundness::lemma_keeps_trans(s3, s5.at(loop_header), s6);
            soundness::lemma_other_block(s5.at(loop_header), s6, exit_block);
        }
        self.branch(b, loop_header, cond, loop_body, exit_block);
        let ghost s7 = self@.with(b@);
        self.jump1(b, from, loop_header, start);
        let ghost s8 = self@.with(b@);
        proof {
            soundness::lemma_keeps_terminate(
                s3,
                s6,
                loop_header,
                TerminatorView::JmpIf(cond, loop_body, exit_block),
            );
            soundness::lemma_keeps_terminate(
                s3,
                s7,
                from,
                TerminatorView::Jmp(loop_header, seq![start]),
            );
            soundness::lemma_keeps_at(s3, s8, loop_body);
        }
        let context = LoopContext {
            loop_header,
            exit_block,
            for_loop_index: Some((loop_index, index_bit_size)),
        };
        self.current_block = loop_body;
        self.bind_local(for_expr.index_variable, loop_index);
        let ghost s9 = self@.with(b@);
        self.loop_stack.push(context);
        let ghost s10 = self@.with(b@);
        proof {
            soundness::lemma_grown(s8, s8.at(loop_body));
            soundness::lemma_bound(s8.at(loop_body), s9);
            soundness::lemma_keeps_scope(s3, s8.at(loop_body), s10);
            soundness::lemma_entered(s9, s10, context);
        }
        self.convert_expression(&for_expr.block, b);
        self.finish_loop(b, context, Ghost(s3), Ghost(s10));
        None
    }

    /// Converts an `if`.
    fn convert_if(
        &mut self,
        if_expr: &If,
        b: &mut HLFunctionBuilder,
    ) -> (result: Option<ValueId>)
        requires
            old(self)@.with(old(b)@).well_formed(),
            model::lower_if(old(self)@.env, old(self)@.with(old(b)@), *if_expr) is Some,
        ensures
            model::lower_if(old(self)@.env, old(self)@.with(old(b)@), *if_expr) == Some(
                (final(self)@.with(final(b)@), result),
            ),
            final(self)@.env == old(self)@.env,
            soundness::sound_step(old(self)@.with(old(b)@), final(self)@.with(final(b)@), result),
        decreases if_expr, 0nat,
    {
        if let Some(known) = self.try_eval_const_bool(&if_expr.condition) {
            proof {
                soundness::lemma_continues_refl(self@.with(b@));
            }
            if known {
                return self.convert_expression(&if_expr.consequence, b);
            } else if let Some(alt) = &if_expr.alternative {
                return self.convert_expression(alt, b);
            } else {
                return None;
            }
        }
        let condition = self.convert_value(&if_expr.condition, b);
        let ghost s1 = self@.with(b@);
        let from = self.current_block;
        let then_block = self.add_block(b);
        let else_block = self.add_block(b);
        let merge_block = self.add_block(b);
        let ghost s2 = self@.with(b@);
        self.branch(b, from, condition, then_block, else_block);
        let ghost s3 = self@.with(b@);
        self.current_block = then_block;
        let ghost s4 = self@.with(b@);
        proof {
            soundness::lemma_keeps_refl(s1);
            soundness::lemma_keeps_add_block(s1, s1);
            soundness::lemma_keeps_add_block(s1, s1.add_block());
            soundness::lemma_keeps_add_block(s1, s1.add_block().add_block());
            soundness::lemma_keeps_terminate(
                s1,
                s2,
                from,
                TerminatorView::JmpIf(condition, then_block, else_block),
            );
            soundness::lemma_keeps_at(s1, s3, then_block);
            soundness::lemma_grown(s3, s4);
        }
        let then_result = self.convert_expression(&if_expr.consequence, b);
        let ghost s5 = self@.with(b@);
        let then_exit = self.current_block;
        self.current_block = else_block;
        let ghost s6 = self@.with(b@);
        proof {
            soundness::lemma_current_kept_or_new(s4, s5);
            soundness::lemma_keeps_trans(s1, s4, s5);
            soundness::lemma_keeps_at(s1, s5, else_block);
            soundness::lemma_grown(s5, s6);
            soundness::lemma_other_block(s4, s5, merge_block);
            soundness::lemma_continues_refl(s6);
        }
        let else_result = match &if_expr.alternative {
            Some(alt) => self.convert_expression(alt, b),
            None => None,
        };
        let ghost s7 = self@.with(b@);
        let else_exit = self.current_block;
        proof {
            soundness::lemma_current_kept_or_new(s6, s7);
            soundness::lemma_keeps_trans(s1, s6, s7);
            soundness::lemma_other_block(s6, s7, merge_block);
        }
        let result = if matches!(if_expr.typ, ast::Type::Unit) {
            self.jump0(b, then_exit, merge_block);
            proof {
                soundness::lemma_keeps_terminate(
                    s1,
                    s7,
                    then_exit,
                    TerminatorView::Jmp(merge_block, seq![]),
                );
            }
            let ghost s8 = self@.with(b@);
            self.jump0(b, else_exit, merge_block);
            proof {
                soundness::lemma_keeps_terminate(
                    s1,
                    s8,
                    else_exit,
                    TerminatorView::Jmp(merge_block, seq![]),
                );
            }
            None
        } else {
            let then_value = then_result.unwrap();
            let else_value = else_result.unwrap();
            let result_type = self.type_converter.convert_type(&if_expr.typ);
            let merge_param = self.parameter(b, merge_block, result_type);
            let ghost s8 = self@.with(b@);
            self.jump1(b, then_exit, merge_block, then_value);
            let ghost s9 = self@.with(b@);
            self.jump1(b, else_exit, merge_block, else_value);
            proof {
                soundness::lemma_keeps_parameter(s1, s7, merge_block, result_type@);
                soundness::lemma_keeps_terminate(
                    s1,
                    s8,
                    then_exit,
                    TerminatorView::Jmp(merge_block, seq![then_value]),
                );
                soundness::lemma_keeps_terminate(
                    s1,
                    s9,
                    else_exit,
                    TerminatorView::Jmp(merge_block, seq![else_value]),
                );
            }
            Some(merge_param)
        };
        let ghost s10 = self@.with(b@);
        self.current_block = merge_block;
        proof {
            soundness::lemma_keeps_at(s1, s10, merge_block);
            soundness::lemma_grown(s10, self@.with(b@));
            assert(then_exit != merge_block && else_exit != merge_block);
            assert(self@.with(b@).code.is_open(merge_block));
            assert(soundness::continues(s1, self@.with(b@)));
        }
        result
    }
}

impl<'a> ExpressionConverter<'a> {
    /// Converts a call.
    fn convert_call(
        &mut self,
        call: &Call,
        b: &mut HLFunctionBuilder,
    ) -> (result: Option<ValueId>)
        requires
            old(self)@.with(old(b)@).well_formed(),
            model::lower_call(old(self)@.env, old(self)@.with(old(b)@), *call) is Some,
        ensures
            model::lower_call(old(self)@.env, old(self)@.with(old(b)@), *call) == Some(
                (final(self)@.with(final(b)@), result),
            ),
            final(self)@.env == old(self)@.env,
            soundness::sound_step(old(self)@.with(old(b)@), final(self)@.with(final(b)@), result),
        decreases call, 3nat,
    {
        match &call.func.kind {
            ExpressionKind::Ident(ident) => {
                proof {
                    soundness::lemma_continues_refl(self@.with(b@));
                }
                match &ident.definition {
                    Definition::Function(func_id) => self.convert_static_call(*func_id, call, b),
                    Definition::Builtin(name) => {
                        self.convert_builtin_call(name.as_str(), call, b)
                    },
                    Definition::LowLevel(name) => {
                        self.convert_lowlevel_call(name.as_str(), call, b)
                    },
                    _ => None,
                }
            },
            _ => {
                let mut operands = self.convert_values(&call.arguments, b);
                let ghost args = operands@;
                let fn_ptr = self.convert_value(&call.func, b);
                operands.insert(0, fn_ptr);
                assert(operands@ =~= seq![fn_ptr] + args);
                self.call_to(b, Opcode::CallIndirect, operands, &call.return_type)
            },
        }
    }

    /// Converts a call of a function.
    fn convert_static_call(
        &mut self,
        func_id: FuncId,
        call: &Call,
        b: &mut HLFunctionBuilder,
    ) -> (result: Option<ValueId>)
        requires
            old(self)@.with(old(b)@).well_formed(),
            model::lower_static_call(old(self)@.env, old(self)@.with(old(b)@), func_id, *call) is Some,
        ensures
            model::lower_static_call(old(self)@.env, old(self)@.with(old(b)@), func_id, *call) == Some(
                (final(self)@.with(final(b)@), result),
            ),
            final(self)@.env == old(self)@.env,
            soundness::sound_step(old(self)@.with(old(b)@), final(self)@.with(final(b)@), result),
        decreases call, 0nat,
    {
        let args = self.convert_values(&call.arguments, b);
        let function = *self.function_mapper.get(&func_id.0).unwrap();
        let unconstrained = !self.in_unconstrained && self.natively_unconstrained.contains(
            &func_id.0,
        );
        self.call_to(b, Opcode::Call { function, unconstrained }, args, &call.return_type)
    }

    /// Converts the first argument of a call, whose value is needed.
    fn convert_first(
        &mut self,
        call: &Call,
        b: &mut HLFunctionBuilder,
    ) -> (value: ValueId)
        requires
            old(self)@.with(old(b)@).well_formed(),
            model::lower_first(old(self)@.env, old(self)@.with(old(b)@), *call) is Some,
        ensures
            model::lower_first(old(self)@.env, old(self)@.with(old(b)@), *call) == Some(
                (final(self)@.with(final(b)@), value),
            ),
            final(self)@.env == old(self)@.env,
            soundness::sound_step(old(self)@.with(old(b)@), final(self)@.with(final(b)@), Some(value)),
        decreases call, 0nat,
    {
        self.convert_value(&call.arguments[0], b)
    }

    /// Converts the first two arguments of a call, whose values are needed.
    fn convert_first_two(&mut self, call: &Call, b: &mut HLFunctionBuilder) -> (values: (
        ValueId,
        ValueId,
    ))
        requires
            old(self)@.with(old(b)@).well_formed(),
            model::lower_first_two(old(self)@.env, old(self)@.with(old(b)@), *call) is Some,
        ensures
            model::lower_first_two(old(self)@.env, old(self)@.with(old(b)@), *call) == Some(
                (final(self)@.with(final(b)@), values.0, values.1),
            ),
            final(self)@.env == old(self)@.env,
            soundness::sound_step(
                old(self)@.with(old(b)@),
                final(self)@.with(final(b)@),
                Some(values.0),
            ),
            final(b)@.has_value(values.1),
        decreases call, 0nat,
    {
        let first = self.convert_value(&call.arguments[0], b);
        let second = self.convert_value(&call.arguments[1], b);
        (first, second)
    }

    /// Converts a call that writes a number in a base.
    fn convert_to_radix(
        &mut self,
        call: &Call,
        endianness: Endianness,
        b: &mut HLFunctionBuilder,
    ) -> (result: Option<ValueId>)
        requires
            old(self)@.with(old(b)@).well_formed(),
            model::lower_to_radix(old(self)@.env, old(self)@.with(old(b)@), *call, endianness) is Some,
        ensures
            model::lower_to_radix(old(self)@.env, old(self)@.with(old(b)@), *call, endianness) == Some(
                (final(self)@.with(final(b)@), result),
            ),
            final(self)@.env == old(self)@.env,
            soundness::sound_step(old(self)@.with(old(b)@), final(self)@.with(final(b)@), result),
        decreases call, 1nat,
    {
        let (input, radix) = self.convert_first_two(call, b);
        let output_size = match &call.return_type {
            ast::Type::Array(len, _) => *len as usize,
            _ => 0,
        };
        Some(self.value2(b, Opcode::ToRadix(endianness, output_size), input, radix))
    }

    /// Converts a call that writes a number in binary.
    fn convert_to_bits(
        &mut self,
        call: &Call,
        endianness: Endianness,
        b: &mut HLFunctionBuilder,
    ) -> (result: Option<ValueId>)
        requires
            old(self)@.with(old(b)@).well_formed(),
            model::lower_to_bits(old(self)@.env, old(self)@.with(old(b)@), *call, endianness) is Some,
        ensures
            model::lower_to_bits(old(self)@.env, old(self)@.with(old(b)@), *call, endianness) == Some(
                (final(self)@.with(final(b)@), result),
            ),
            final(self)@.env == old(self)@.env,
            soundness::sound_step(old(self)@.with(old(b)@), final(self)@.with(final(b)@), result),
        decreases call, 1nat,
    {
        let input = self.convert_first(call, b);
        let output_size = match &call.return_type {
            ast::Type::Array(len, _) => *len as usize,
            _ => 0,
        };
        Some(self.value1(b, Opcode::ToBits(endianness, output_size), input))
    }

    /// Converts the length of an array or a vector.
    fn convert_array_len(
        &mut self,
        call: &Call,
        b: &mut HLFunctionBuilder,
    ) -> (result: Option<ValueId>)
        requires
            old(self)@.with(old(b)@).well_formed(),
            model::lower_array_len(old(self)@.env, old(self)@.with(old(b)@), *call) is Some,
        ensures
            model::lower_array_len(old(self)@.env, old(self)@.with(old(b)@), *call) == Some(
                (final(self)@.with(final(b)@), result),
            ),
            final(self)@.env == old(self)@.env,
            soundness::sound_step(old(self)@.with(old(b)@), final(self)@.with(final(b)@), result),
        decreases call, 1nat,
    {
        match &call.arguments[0].return_type {
            Some(ast::Type::Array(len, _)) => {
                // The length is known, but what the argument does is still to be done.
                self.convert_expression(&call.arguments[0], b);
                Some(self.constant(b, Constant::U(32, *len as u128)))
            },
            _ => {
                let slice = self.convert_first(call, b);
                Some(self.value1(b, Opcode::SliceLen, slice))
            },
        }
    }

    /// Converts a call of a builtin.
    fn convert_builtin_call(
        &mut self,
        name: &str,
        call: &Call,
        b: &mut HLFunctionBuilder,
    ) -> (result: Option<ValueId>)
        requires
            old(self)@.with(old(b)@).well_formed(),
            model::lower_builtin_call(old(self)@.env, old(self)@.with(old(b)@), name@, *call) is Some,
        ensures
            model::lower_builtin_call(old(self)@.env, old(self)@.with(old(b)@), name@, *call) == Some(
                (final(self)@.with(final(b)@), result),
            ),
            final(self)@.env == old(self)@.env,
            soundness::sound_step(old(self)@.with(old(b)@), final(self)@.with(final(b)@), result),
        decreases call, 2nat,
    {
        match builtin(name) {
            Some(Builtin::AssertEq) => {
                let (lhs, rhs) = self.convert_first_two(call, b);
                self.effect2(b, Opcode::AssertEq, lhs, rhs);
                None
            },
            Some(Builtin::StaticAssert) => {
                let cond = self.convert_first(call, b);
                self.effect1(b, Opcode::AssertBool, cond);
                None
            },
            Some(Builtin::ArrayLen) => self.convert_array_len(call, b),
            Some(Builtin::ToRadix(endianness)) => self.convert_to_radix(call, endianness, b),
            Some(Builtin::ToBits(endianness)) => self.convert_to_bits(call, endianness, b),
            Some(Builtin::RangeConstraint) => {
                let value = self.convert_first(call, b);
                let bit_size = literal_argument(call, 1).unwrap();
                self.effect1(b, Opcode::RangeCheck(#[verifier::truncate] (bit_size as usize)), value);
                None
            },
            Some(Builtin::IsUnconstrained) => {
                let bit: u128 = if self.in_unconstrained {
                    1
                } else {
                    0
                };
                Some(self.constant(b, Constant::U(1, bit)))
            },
            Some(Builtin::AsWitness) => {
                self.convert_expression(&call.arguments[0], b);
                None
            },
            Some(Builtin::AsVector) => {
                let array = self.convert_first(call, b);
                Some(self.value1(b, Opcode::Cast(CastTarget::ArrayToSlice), array))
            },
            None => self.convert_replacement_call(name, call, b),
        }
    }

    /// Converts a call of a low-level function.
    fn convert_lowlevel_call(
        &mut self,
        name: &str,
        call: &Call,
        b: &mut HLFunctionBuilder,
    ) -> (result: Option<ValueId>)
        requires
            old(self)@.with(old(b)@).well_formed(),
            model::lower_lowlevel_call(old(self)@.env, old(self)@.with(old(b)@), name@, *call) is Some,
        ensures
            model::lower_lowlevel_call(old(self)@.env, old(self)@.with(old(b)@), name@, *call) == Some(
                (final(self)@.with(final(b)@), result),
            ),
            final(self)@.env == old(self)@.env,
            soundness::sound_step(old(self)@.with(old(b)@), final(self)@.with(final(b)@), result),
        decreases call, 2nat,
    {
        let intrinsic = self.try_convert_mavros_intrinsic(name, call, b);
        if intrinsic.is_some() {
            return intrinsic;
        }
        self.convert_replacement_call(name, call, b)
    }

    /// Converts a call of a function that another stands in for.
    fn convert_replacement_call(
        &mut self,
        name: &str,
        call: &Call,
        b: &mut HLFunctionBuilder,
    ) -> (result: Option<ValueId>)
        requires
            old(self)@.with(old(b)@).well_formed(),
            model::lower_replacement_call(old(self)@.env, old(self)@.with(old(b)@), name@, *call) is Some,
        ensures
            model::lower_replacement_call(old(self)@.env, old(self)@.with(old(b)@), name@, *call) == Some(
                (final(self)@.with(final(b)@), result),
            ),
            final(self)@.env == old(self)@.env,
            soundness::sound_step(old(self)@.with(old(b)@), final(self)@.with(final(b)@), result),
        decreases call, 1nat,
    {
        let replacement_id = self.replacement_for(name, &call.return_type).unwrap();
        self.convert_static_call(replacement_id, call, b)
    }

    /// Converts a call of a low-level function, if it is one that the compiler implements itself.
    fn try_convert_mavros_intrinsic(
        &mut self,
        name: &str,
        call: &Call,
        b: &mut HLFunctionBuilder,
    ) -> (result: Option<ValueId>)
        requires
            old(self)@.with(old(b)@).well_formed(),
            model::is_intrinsic(name@) ==> model::lower_intrinsic(
                old(self)@.env,
                old(self)@.with(old(b)@),
                name@,
                *call,
            ) is Some,
        ensures
            result is Some <==> model::is_intrinsic(name@),
            model::is_intrinsic(name@) ==> model::lower_intrinsic(
                old(self)@.env,
                old(self)@.with(old(b)@),
                name@,
                *call,
            ) == Some((final(self)@.with(final(b)@), result)),
            !model::is_intrinsic(name@) ==> final(self)@ == old(self)@ && final(b)@ == old(b)@,
            final(self)@.env == old(self)@.env,
            soundness::sound_step(old(self)@.with(old(b)@), final(self)@.with(final(b)@), result),
        decreases call, 1nat,
    {
        proof {
            soundness::lemma_continues_refl(self@.with(b@));
        }
        if same_text(name, "unsafe_cast") {
            let (target, _) = cast_target(&call.return_type).unwrap();
            let value = self.convert_first(call, b);
            return Some(self.value1(b, Opcode::Cast(target), value));
        }
        let spread = same_text(name, "spread_inner");
        if !spread && !same_text(name, "unspread_inner") {
            return None;
        }
        let bits = #[verifier::truncate] (literal_argument(call, 1).unwrap() as u32);
        let value = self.convert_first(call, b);
        if spread {
            Some(self.value1(b, Opcode::Spread(bits as u8), value))
        } else {
            Some(self.unspread(b, value, bits as u8))
        }
    }

    /// The odd and the even bits of a value, as a tuple.
    fn unspread(&self, b: &mut HLFunctionBuilder, value: ValueId, bits: u8) -> (halves: ValueId)
        requires
            self@.with(old(b)@).well_formed(),
            old(b)@.has_value(value),
        ensures
            (self@.with(final(b)@), halves) == model::lower_unspread(
                self@.with(old(b)@),
                value,
                bits,
            ),
            soundness::sound_step(self@.with(old(b)@), self@.with(final(b)@), Some(halves)),
    {
        let operands = vec![value];
        assert(operands@ =~= seq![value]);
        let (odd, even) = self.value_pair(b, Opcode::Unspread(bits), operands);
        let halves = vec![odd, even];
        let types = vec![Type::U(32), Type::U(32)];
        proof {
            assert(halves@ =~= seq![odd, even]);
            assert(hlssa::type_views(types@) =~= seq![TypeView::U(32), TypeView::U(32)]);
        }
        self.value_of_types(b, Opcode::MkTuple, halves, types)
    }

    /// An instruction without types and with two results.
    fn value_pair(&self, b: &mut HLFunctionBuilder, op: Opcode, operands: Vec<ValueId>) -> (pair: (
        ValueId,
        ValueId,
    ))
        requires
            self@.with(old(b)@).well_formed(),
            old(b)@.has_values(operands@),
        ensures
            self@.with(final(b)@) == self@.with(old(b)@).emit(op, operands@, seq![], 2),
            seq![pair.0, pair.1] == builder::fresh_values(old(b)@.values.len(), 2),
            soundness::sound_step(self@.with(old(b)@), self@.with(final(b)@), Some(pair.0)),
            final(b)@.has_value(pair.1),
    {
        let types: Vec<Type> = Vec::new();
        assert(hlssa::type_views(types@) =~= seq![]);
        let pair = b.emit_pair(self.current_block, op, operands, types);
        proof {
            let s = self@.with(old(b)@);
            soundness::lemma_emit_step(s, op, operands@, seq![], 2);
            soundness::lemma_grown(s, self@.with(b@));
            b@.lemma_countable();
            let fresh = builder::fresh_values(old(b)@.values.len(), 2);
            assert(seq![pair.0, pair.1][0] == fresh[0]);
            assert(seq![pair.0, pair.1][1] == fresh[1]);
        }
        pair
    }
}

/// The code of fewer expressions than have code is code.
pub proof fn lemma_values_prefix(env: LowerEnv, s: LowerState, exprs: Seq<Expression>, i: nat, n: nat)
    requires
        i <= n,
        model::lower_values(env, s, exprs, n) is Some,
    ensures
        model::lower_values(env, s, exprs, i) is Some,
    decreases n,
{
    if i < n {
        lemma_values_prefix(env, s, exprs, i, (n - 1) as nat);
    }
}

/// The code of fewer expressions than have code is code.
pub proof fn lemma_block_prefix(env: LowerEnv, s: LowerState, exprs: Seq<Expression>, i: nat, n: nat)
    requires
        i <= n,
        model::lower_block(env, s, exprs, n) is Some,
    ensures
        model::lower_block(env, s, exprs, i) is Some,
    decreases n,
{
    if i < n {
        lemma_block_prefix(env, s, exprs, i, (n - 1) as nat);
    }
}

/// The builtin of a name, if the compiler implements it itself.
pub(crate) fn builtin(name: &str) -> (builtin: Option<Builtin>)
    ensures
        builtin == model::builtin(name@),
{
    reveal(model::builtin);
    if same_text(name, "assert_eq") {
        Some(Builtin::AssertEq)
    } else if same_text(name, "static_assert") {
        Some(Builtin::StaticAssert)
    } else if same_text(name, "array_len") {
        Some(Builtin::ArrayLen)
    } else if same_text(name, "to_le_radix") {
        Some(Builtin::ToRadix(Endianness::Little))
    } else if same_text(name, "to_be_radix") {
        Some(Builtin::ToRadix(Endianness::Big))
    } else if same_text(name, "apply_range_constraint") {
        Some(Builtin::RangeConstraint)
    } else if same_text(name, "is_unconstrained") {
        Some(Builtin::IsUnconstrained)
    } else if same_text(name, "as_witness") {
        Some(Builtin::AsWitness)
    } else if same_text(name, "to_le_bits") {
        Some(Builtin::ToBits(Endianness::Little))
    } else if same_text(name, "to_be_bits") {
        Some(Builtin::ToBits(Endianness::Big))
    } else if same_text(name, "as_vector") {
        Some(Builtin::AsVector)
    } else {
        None
    }
}

/// What a value of a type is cast to when it is cast to `typ`, and the width of the result.
pub(crate) fn cast_target(typ: &ast::Type) -> (target: Option<(CastTarget, usize)>)
    ensures
        target == model::cast_target(*typ),
{
    match typ {
        ast::Type::Field => Some((CastTarget::Field, 254)),
        ast::Type::Integer(signedness, size) => {
            let bits = size.bit_size();
            match signedness {
                Signedness::Unsigned => Some((CastTarget::U(bits), bits)),
                Signedness::Signed => Some((CastTarget::I(bits), bits)),
            }
        },
        ast::Type::Bool => Some((CastTarget::U(1), 1)),
        _ => None,
    }
}

/// The width of a value that is cast, and whether it is signed.
fn cast_source(typ: &Option<ast::Type>) -> (source: (usize, bool))
    ensures
        source == model::cast_source(*typ),
{
    match typ {
        Some(ast::Type::Field) => (254, false),
        Some(ast::Type::Integer(signedness, size)) => {
            (size.bit_size(), matches!(signedness, Signedness::Signed))
        },
        Some(ast::Type::Bool) => (1, false),
        _ => (0, false),
    }
}

/// The constant that an integer literal of this type is.
fn integer_constant(number: &ast::SignedField, typ: &ast::Type) -> (constant: Constant)
    requires
        model::integer_constant(*number, *typ) is Some,
    ensures
        model::integer_constant(*number, *typ) == Some(constant@),
{
    match typ {
        ast::Type::Field => Constant::Field(noir_field_to_bn254(&number.field_element)),
        ast::Type::Integer(Signedness::Signed, size) => {
            Constant::I(size.bit_size(), twos_complement(number.signed.unwrap(), *size))
        },
        ast::Type::Integer(Signedness::Unsigned, size) => {
            Constant::U(size.bit_size(), number.unsigned.unwrap())
        },
        _ => Constant::U(1, number.unsigned.unwrap()),
    }
}

/// The zero that a value of this type is subtracted from to negate it.
fn zero_constant(typ: &Option<ast::Type>) -> (constant: Constant)
    ensures
        constant@ == model::zero_constant(*typ),
{
    match typ {
        Some(ast::Type::Integer(Signedness::Signed, size)) => Constant::I(size.bit_size(), 0),
        Some(ast::Type::Integer(Signedness::Unsigned, size)) => Constant::U(size.bit_size(), 0),
        _ => Constant::Field(Field::from_u64(0)),
    }
}

/// The unsigned integer that an argument is, if it is a literal.
pub(crate) fn literal_argument(call: &Call, i: usize) -> (number: Option<u128>)
    ensures
        number == model::literal_argument(*call, i as int),
{
    if i < call.arguments.len() {
        match &call.arguments[i].kind {
            ExpressionKind::Literal(Literal::Integer(number, _)) => number.unsigned,
            _ => None,
        }
    } else {
        None
    }
}

/// The UTF-8 bytes of a text.
fn byte_constants(text: &str) -> (constants: Vec<Constant>)
    ensures
        constants@.map_values(|c: Constant| c@) == model::utf8_bytes(text@),
{
    let bytes = text.as_bytes();
    let mut constants: Vec<Constant> = Vec::new();
    let mut i: usize = 0;
    while i < bytes.len()
        invariant
            i <= bytes@.len(),
            constants@.len() == i,
            forall|j: int|
                0 <= j < i ==> (#[trigger] constants@[j])@ == ConstantView::U(8, bytes@[j] as u128),
        decreases bytes@.len() - i,
    {
        constants.push(Constant::U(8, bytes[i] as u128));
        i += 1;
    }
    assert(constants@.map_values(|c: Constant| c@) =~= model::utf8_bytes(text@));
    constants
}

/// The code points of a text, added to those that are there.
fn push_codepoints(constants: &mut Vec<Constant>, text: &str)
    ensures
        final(constants)@.map_values(|c: Constant| c@) == old(constants)@.map_values(
            |c: Constant| c@,
        ) + model::code_points(text@),
{
    let ghost before = constants@;
    let len = text.unicode_len();
    let mut i: usize = 0;
    while i < len
        invariant
            i <= len,
            len == text@.len(),
            constants@.len() == before.len() + i,
            forall|j: int| 0 <= j < before.len() ==> constants@[j] == before[j],
            forall|j: int|
                0 <= j < i ==> (#[trigger] constants@[before.len() + j])@ == ConstantView::U(
                    32,
                    text@[j] as u128,
                ),
        decreases len - i,
    {
        constants.push(Constant::U(32, text.get_char(i) as u128));
        i += 1;
    }
    proof {
        let after = constants@.map_values(|c: Constant| c@);
        let expected = before.map_values(|c: Constant| c@) + model::code_points(text@);
        assert forall|j: int| 0 <= j < after.len() implies after[j] == expected[j] by {
            if j >= before.len() {
                let k = j - before.len();
                assert(constants@[before.len() + k] == constants@[j]);
            }
        }
        assert(after =~= expected);
    }
}

/// The code points of a format string.
fn codepoint_constants(fragments: &Vec<FmtStrFragment>) -> (constants: Vec<Constant>)
    ensures
        constants@.map_values(|c: Constant| c@) == model::code_points(
            model::format_text(fragments@),
        ),
{
    let mut constants: Vec<Constant> = Vec::new();
    let mut i: usize = 0;
    proof {
        assert(fragments@.take(0) =~= seq![]);
        assert(constants@.map_values(|c: Constant| c@) =~= model::code_points(seq![]));
    }
    while i < fragments.len()
        invariant
            i <= fragments@.len(),
            constants@.map_values(|c: Constant| c@) == model::code_points(
                model::format_text(fragments@.take(i as int)),
            ),
        decreases fragments@.len() - i,
    {
        let ghost text = model::format_text(fragments@.take(i as int));
        match &fragments[i] {
            FmtStrFragment::String(s) => {
                push_codepoints(&mut constants, s.as_str());
            },
            FmtStrFragment::Interpolation(name) => {
                proof {
                    reveal_strlit("{");
                    reveal_strlit("}");
                    assert("{"@ =~= seq!['{']);
                    assert("}"@ =~= seq!['}']);
                }
                push_codepoints(&mut constants, "{");
                push_codepoints(&mut constants, name.as_str());
                push_codepoints(&mut constants, "}");
            },
        }
        proof {
            let longer = fragments@.take(i + 1);
            assert(longer.drop_last() =~= fragments@.take(i as int));
            assert(longer.last() == fragments@[i as int]);
            assert(constants@.map_values(|c: Constant| c@) =~= model::code_points(
                text + model::fragment_text(fragments@[i as int]),
            ));
        }
        i += 1;
    }
    assert(fragments@.take(fragments@.len() as int) =~= fragments@);
    constants
}

/// The values that a path speaks of exist.
pub open spec fn has_path(code: Code, path: Seq<AccessStep>) -> bool {
    forall|i: int|
        0 <= i < path.len() ==> ((#[trigger] path[i]) matches AccessStep::Index(index)
            ==> code.has_value(index))
}

/// The bits that all widths keep of a signed integer are those of its remainder.
proof fn lemma_low_bits(number: i128, unsigned: u128)
    requires
        unsigned == number as u128,
    ensures
        unsigned & 1 == number as int % 2,
        unsigned & 0xff == number as int % 0x100,
        unsigned & 0xffff == number as int % 0x1_0000,
        unsigned & 0xffff_ffff == number as int % 0x1_0000_0000,
        unsigned & 0xffff_ffff_ffff_ffff == number as int % 0x1_0000_0000_0000_0000,
{
    let wrap: int = 0x1_0000_0000_0000_0000_0000_0000_0000_0000int;
    let signed = number as int;
    assert(number >= 0 ==> unsigned == number) by (bit_vector)
        requires
            unsigned == number as u128,
    ;
    assert(number < 0 ==> unsigned == number + 0xffff_ffff_ffff_ffff_ffff_ffff_ffff_ffffu128 + 1)
        by (bit_vector)
        requires
            unsigned == number as u128,
    ;
    assert(unsigned & 1 == unsigned % 2) by (bit_vector);
    assert(unsigned & 0xff == unsigned % 0x100) by (bit_vector);
    assert(unsigned & 0xffff == unsigned % 0x1_0000) by (bit_vector);
    assert(unsigned & 0xffff_ffff == unsigned % 0x1_0000_0000) by (bit_vector);
    assert(unsigned & 0xffff_ffff_ffff_ffff == unsigned % 0x1_0000_0000_0000_0000) by (bit_vector);
    if number < 0 {
        lemma_mod_add_multiples_vanish_by(signed, 2, wrap / 2);
        lemma_mod_add_multiples_vanish_by(signed, 0x100, wrap / 0x100);
        lemma_mod_add_multiples_vanish_by(signed, 0x1_0000, wrap / 0x1_0000);
        lemma_mod_add_multiples_vanish_by(signed, 0x1_0000_0000, wrap / 0x1_0000_0000);
        lemma_mod_add_multiples_vanish_by(
            signed,
            0x1_0000_0000_0000_0000,
            wrap / 0x1_0000_0000_0000_0000,
        );
    }
}

/// A multiple of the divisor does not change the remainder.
proof fn lemma_mod_add_multiples_vanish_by(x: int, m: int, k: int)
    requires
        m > 0,
    ensures
        (x + m * k) % m == x % m,
{
    vstd::arithmetic::div_mod::lemma_mod_multiples_vanish(k, x, m);
    assert(x + m * k == m * k + x);
}

/// The low bits of a signed integer.
fn twos_complement(number: i128, size: ast::IntegerBitSize) -> (pattern: u128)
    requires
        size.bits() < 128,
    ensures
        pattern == model::twos_complement(number, size.bits() as nat),
{
    let unsigned = #[verifier::truncate]
    (number as u128);
    proof {
        lemma_low_bits(number, unsigned);
        assert(1u128 << 1usize == 2) by (bit_vector);
        assert(1u128 << 8usize == 0x100) by (bit_vector);
        assert(1u128 << 16usize == 0x1_0000) by (bit_vector);
        assert(1u128 << 32usize == 0x1_0000_0000) by (bit_vector);
        assert(1u128 << 64usize == 0x1_0000_0000_0000_0000) by (bit_vector);
        vstd::arithmetic::power2::lemma2_to64();
    }
    unsigned & ((1u128 << size.bit_size()) - 1)
}

} // verus!
