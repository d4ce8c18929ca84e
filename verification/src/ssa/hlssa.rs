//! The instruction set.

use vstd::arithmetic::power2::*;
use vstd::prelude::*;
use crate::field;
use crate::field::Field;

verus! {

/// A value: a constant, a block parameter or the result of an instruction.
#[derive(Clone, Copy, Debug, PartialEq, Eq)]
pub struct ValueId(pub usize);

/// A basic block.
#[derive(Clone, Copy, Debug, PartialEq, Eq)]
pub struct BlockId(pub usize);

/// A function.
#[derive(Clone, Copy, Debug, PartialEq, Eq)]
pub struct FunctionId(pub usize);

/// The type of a value. Integers carry their width in bits.
#[derive(Debug, PartialEq, Eq)]
pub enum Type {
    Field,
    U(usize),
    I(usize),
    Array(Box<Type>, usize),
    Slice(Box<Type>),
    Tuple(Vec<Type>),
    Ref(Box<Type>),
    Function,
}

/// What a `Type` says.
pub enum TypeView {
    Field,
    U(usize),
    I(usize),
    Array(Box<TypeView>, usize),
    Slice(Box<TypeView>),
    Tuple(Seq<TypeView>),
    Ref(Box<TypeView>),
    Function,
}

impl Type {
    pub open spec fn view(self) -> TypeView
        decreases self,
    {
        match self {
            Type::Field => TypeView::Field,
            Type::U(bits) => TypeView::U(bits),
            Type::I(bits) => TypeView::I(bits),
            Type::Array(element, len) => TypeView::Array(Box::new((*element).view()), len),
            Type::Slice(element) => TypeView::Slice(Box::new((*element).view())),
            Type::Tuple(fields) => TypeView::Tuple(
                Seq::new(
                    fields@.len(),
                    |i: int|
                        if 0 <= i < fields@.len() {
                            fields@[i].view()
                        } else {
                            TypeView::Field
                        },
                ),
            ),
            Type::Ref(target) => TypeView::Ref(Box::new((*target).view())),
            Type::Function => TypeView::Function,
        }
    }

    /// The width of a number of this type: the bits of an integer, the bits of the bn254
    /// modulus for a field element.
    pub fn get_bit_size(&self) -> (bits: usize)
        requires
            self@.bit_size() is Some,
        ensures
            self@.bit_size() == Some(bits),
    {
        match self {
            Type::U(bits) => *bits,
            Type::I(bits) => *bits,
            _ => 254,
        }
    }
}

impl TypeView {
    /// The width of a number of this type; no other type has one.
    pub open spec fn bit_size(self) -> Option<usize> {
        match self {
            TypeView::Field => Some(254),
            TypeView::U(bits) => Some(bits),
            TypeView::I(bits) => Some(bits),
            _ => None,
        }
    }
}

/// What each of `types` says.
pub open spec fn type_views(types: Seq<Type>) -> Seq<TypeView> {
    Seq::new(types.len(), |i: int| types[i].view())
}

/// A constant. An integer is given by its width and its bit pattern.
#[derive(Clone, Copy, Debug, PartialEq, Eq)]
pub enum Constant {
    U(usize, u128),
    I(usize, u128),
    Field(Field),
    FnPtr(FunctionId),
}

/// What a `Constant` says.
pub enum ConstantView {
    U(usize, u128),
    I(usize, u128),
    Field(nat),
    FnPtr(FunctionId),
}

impl View for Constant {
    type V = ConstantView;

    open spec fn view(&self) -> ConstantView {
        match *self {
            Constant::U(bits, pattern) => ConstantView::U(bits, pattern),
            Constant::I(bits, pattern) => ConstantView::I(bits, pattern),
            Constant::Field(element) => ConstantView::Field(element@),
            Constant::FnPtr(function) => ConstantView::FnPtr(function),
        }
    }
}

/// Whether digits run from the least or from the most significant one.
#[derive(Clone, Copy, Debug, PartialEq, Eq)]
pub enum Endianness {
    Little,
    Big,
}

/// What a cast casts to.
#[derive(Clone, Copy, Debug, PartialEq, Eq)]
pub enum CastTarget {
    Field,
    U(usize),
    I(usize),
    ArrayToSlice,
}

/// The kind of sequence that an instruction makes; an array has a fixed length.
#[derive(Clone, Copy, Debug, PartialEq, Eq)]
pub enum SequenceTargetType {
    Array(usize),
    Slice,
}

/// An operator on two values.
#[derive(Clone, Copy, Debug, PartialEq, Eq)]
pub enum BinaryOp {
    Add,
    Sub,
    Mul,
    Div,
    Modulo,
    And,
    Or,
    Xor,
    Shl,
    Shr,
    Eq,
    Lt,
}

/// What an instruction does with its operands.
#[derive(Clone, Copy, Debug, PartialEq, Eq)]
pub enum Opcode {
    /// Both operands combined.
    Binary(BinaryOp),
    /// The operand negated bit by bit.
    Not,
    /// A fresh pointer to a value of the one type given.
    Alloc,
    /// Writes the second operand through the first, a pointer.
    Store,
    /// Reads through the operand, a pointer.
    Load,
    /// The global in a slot, of the one type given.
    ReadGlobal(u64),
    /// A tuple of the operands, whose types are given.
    MkTuple,
    /// One field of the operand, a tuple.
    TupleProj(usize),
    /// The element of the first operand at the index that is the second.
    ArrayGet,
    /// The first operand with its element at the second operand replaced by the third.
    ArraySet,
    /// A sequence of the operands, whose common type is given.
    MkSeq(SequenceTargetType),
    /// A sequence that repeats the operand, whose type is given.
    MkRepeated(SequenceTargetType, usize),
    /// The operand cast.
    Cast(CastTarget),
    /// Some bits of the operand: the first of them, and how many.
    BitRange(usize, usize),
    /// The operand sign-extended from the first width to the second.
    Sext(usize, usize),
    /// Asserts the operand.
    AssertBool,
    /// Asserts that the operands are equal.
    AssertEq,
    /// A call with the operands for arguments.
    Call { function: FunctionId, unconstrained: bool },
    /// A call of the first operand, a function pointer, with the others for arguments.
    CallIndirect,
    /// The length of the operand, a slice.
    SliceLen,
    /// So many digits of the first operand, in the base that is the second.
    ToRadix(Endianness, usize),
    /// So many bits of the operand.
    ToBits(Endianness, usize),
    /// Asserts that the operand fits in so many bits.
    RangeCheck(usize),
    /// The low bits of the operand spread apart.
    Spread(u8),
    /// The odd and the even bits of the operand.
    Unspread(u8),
}

/// An instruction: the values it defines, from the values it reads.
#[derive(Debug, PartialEq, Eq)]
pub struct Instruction {
    pub op: Opcode,
    pub results: Vec<ValueId>,
    pub operands: Vec<ValueId>,
    pub types: Vec<Type>,
}

/// What an `Instruction` says.
#[verifier::ext_equal]
pub struct InstructionView {
    pub op: Opcode,
    pub results: Seq<ValueId>,
    pub operands: Seq<ValueId>,
    pub types: Seq<TypeView>,
}

impl View for Instruction {
    type V = InstructionView;

    open spec fn view(&self) -> InstructionView {
        InstructionView {
            op: self.op,
            results: self.results@,
            operands: self.operands@,
            types: type_views(self.types@),
        }
    }
}

/// How control leaves a block: to a block whose parameters take the arguments, or, by a
/// condition, to one of two.
#[derive(Debug, PartialEq, Eq)]
pub enum Terminator {
    Jmp(BlockId, Vec<ValueId>),
    JmpIf(ValueId, BlockId, BlockId),
}

/// What a `Terminator` says.
#[verifier::ext_equal]
pub enum TerminatorView {
    Jmp(BlockId, Seq<ValueId>),
    JmpIf(ValueId, BlockId, BlockId),
}

impl View for Terminator {
    type V = TerminatorView;

    open spec fn view(&self) -> TerminatorView {
        match *self {
            Terminator::Jmp(target, args) => TerminatorView::Jmp(target, args@),
            Terminator::JmpIf(cond, then_block, else_block) => TerminatorView::JmpIf(
                cond,
                then_block,
                else_block,
            ),
        }
    }
}

/// A basic block. Until it is terminated it is open.
#[derive(Debug, PartialEq, Eq)]
pub struct Block {
    pub parameters: Vec<(ValueId, Type)>,
    pub instructions: Vec<Instruction>,
    pub terminator: Option<Terminator>,
}

/// What a `Block` says.
#[verifier::ext_equal]
pub struct BlockView {
    pub parameters: Seq<(ValueId, TypeView)>,
    pub instructions: Seq<InstructionView>,
    pub terminator: Option<TerminatorView>,
}

impl View for Block {
    type V = BlockView;

    open spec fn view(&self) -> BlockView {
        BlockView {
            parameters: self.parameters@.map_values(|p: (ValueId, Type)| (p.0, p.1.view())),
            instructions: self.instructions@.map_values(|i: Instruction| i@),
            terminator: match self.terminator {
                Some(terminator) => Some(terminator@),
                None => None,
            },
        }
    }
}

/// Where a value comes from: it is a constant, a parameter of a block (by its position), or a
/// result of an instruction (by its block, its position there, and its place among the results).
#[derive(Clone, Copy, Debug, PartialEq, Eq)]
pub enum ValueDef {
    Constant(Constant),
    Parameter(BlockId, usize),
    Result(BlockId, usize, usize),
}

/// What a `ValueDef` says.
pub enum ValueDefView {
    Constant(ConstantView),
    Parameter(BlockId, usize),
    Result(BlockId, usize, usize),
}

impl View for ValueDef {
    type V = ValueDefView;

    open spec fn view(&self) -> ValueDefView {
        match *self {
            ValueDef::Constant(constant) => ValueDefView::Constant(constant@),
            ValueDef::Parameter(block, position) => ValueDefView::Parameter(block, position),
            ValueDef::Result(block, position, place) => ValueDefView::Result(
                block,
                position,
                place,
            ),
        }
    }
}

/// The width of an integer is its own; a field element takes as many bits as the modulus, one fewer
/// of which would not do; nothing else has a width.
pub proof fn law_widths_are_those_of_numbers(typ: TypeView)
    ensures
        match typ {
            TypeView::U(bits) => typ.bit_size() == Some(bits),
            TypeView::I(bits) => typ.bit_size() == Some(bits),
            TypeView::Field => typ.bit_size() matches Some(bits) && pow2((bits - 1) as nat)
                <= field::modulus() < pow2(bits as nat),
            _ => typ.bit_size() is None,
        },
{
    lemma2_to64();
    lemma2_to64_rest();
    lemma_pow2_adds(63, 63);
    lemma_pow2_adds(63, 64);
    assert(pow2(126) == 0x40000000000000000000000000000000nat);
    assert(pow2(127) == 0x80000000000000000000000000000000nat);
    lemma_pow2_adds(126, 127);
    lemma_pow2_adds(127, 127);
    assert(pow2(253) == 0x2000000000000000000000000000000000000000000000000000000000000000nat);
    assert(pow2(254) == 0x4000000000000000000000000000000000000000000000000000000000000000nat);
}

} // verus!
