//! The monomorphized program: what is left of a Noir program once every generic function has
//! been instantiated. Locations, names of variables and other parts that no pass reads are not
//! kept. Each expression carries the type of its value, where it has one.

use vstd::arithmetic::power2::*;
use vstd::prelude::*;
use crate::field;
use crate::field::FieldElement;

verus! {

/// A local variable, unique within its function.
#[derive(Clone, Copy, Debug, PartialEq, Eq)]
pub struct LocalId(pub u32);

/// A function of the program.
#[derive(Clone, Copy, Debug, PartialEq, Eq)]
pub struct FuncId(pub u32);

/// A global of the program.
#[derive(Clone, Copy, Debug, PartialEq, Eq)]
pub struct GlobalId(pub u32);

#[derive(Clone, Copy, Debug, PartialEq, Eq, Structural)]
pub enum Signedness {
    Unsigned,
    Signed,
}

/// The widths that an integer can have.
#[derive(Clone, Copy, Debug, PartialEq, Eq)]
pub enum IntegerBitSize {
    One,
    Eight,
    Sixteen,
    ThirtyTwo,
    SixtyFour,
    HundredTwentyEight,
}

impl IntegerBitSize {
    pub open spec fn bits(self) -> usize {
        match self {
            IntegerBitSize::One => 1,
            IntegerBitSize::Eight => 8,
            IntegerBitSize::Sixteen => 16,
            IntegerBitSize::ThirtyTwo => 32,
            IntegerBitSize::SixtyFour => 64,
            IntegerBitSize::HundredTwentyEight => 128,
        }
    }

    /// The width in bits.
    pub fn bit_size(self) -> (bits: usize)
        ensures
            bits == self.bits(),
    {
        match self {
            IntegerBitSize::One => 1,
            IntegerBitSize::Eight => 8,
            IntegerBitSize::Sixteen => 16,
            IntegerBitSize::ThirtyTwo => 32,
            IntegerBitSize::SixtyFour => 64,
            IntegerBitSize::HundredTwentyEight => 128,
        }
    }
}

/// The type of an expression.
#[derive(Debug, PartialEq, Eq)]
pub enum Type {
    Field,
    Array(u32, Box<Type>),
    Integer(Signedness, IntegerBitSize),
    Bool,
    String(u32),
    FmtString(u32, Box<Type>),
    Unit,
    Tuple(Vec<Type>),
    Vector(Box<Type>),
    Reference(Box<Type>, bool),
    Function,
}

/// What an identifier stands for.
#[derive(Debug, PartialEq, Eq)]
pub enum Definition {
    Local(LocalId),
    Global(GlobalId),
    Function(FuncId),
    Builtin(String),
    LowLevel(String),
    Oracle(String),
}

#[derive(Debug, PartialEq, Eq)]
pub struct Ident {
    pub definition: Definition,
    pub typ: Type,
}

/// An expression, with the type of its value where it has one.
#[derive(Debug, PartialEq, Eq)]
pub struct Expression {
    pub kind: ExpressionKind,
    pub return_type: Option<Type>,
}

impl Expression {
    /// The type that the expression carries is the one that its form calls for. What is done for
    /// its effect alone carries none.
    pub open spec fn is_typed(self) -> bool
        decreases self,
    {
        match self.kind {
            ExpressionKind::Ident(ident) => self.return_type == Some(ident.typ),
            ExpressionKind::Literal(literal) => match literal {
                Literal::Bool(_) => self.return_type == Some(Type::Bool),
                Literal::Integer(_, typ) => self.return_type == Some(typ),
                Literal::Unit => self.return_type == Some(Type::Unit),
                Literal::Array(array) => self.return_type == Some(array.typ),
                Literal::Vector(array) => self.return_type == Some(array.typ),
                Literal::Repeated { element: _, length: _, is_vector: _, typ } => self.return_type
                    == Some(typ),
                Literal::Str(_) => self.return_type matches Some(Type::String(_)),
                Literal::FmtStr(_, _) => self.return_type matches Some(Type::FmtString(_, _)),
            },
            ExpressionKind::Block(exprs) => if exprs@.len() == 0 {
                self.return_type is None
            } else {
                exprs@[exprs@.len() - 1].is_typed() && self.return_type == exprs@[exprs@.len()
                    - 1].return_type
            },
            ExpressionKind::Binary(binary) => if binary.operator.is_comparison() {
                self.return_type == Some(Type::Bool)
            } else {
                binary.lhs.is_typed() && self.return_type == binary.lhs.return_type
            },
            ExpressionKind::Clone(inner) => inner.is_typed() && self.return_type
                == inner.return_type,
            ExpressionKind::Cast(cast) => self.return_type == Some(cast.typ),
            ExpressionKind::If(if_expr) => self.return_type == Some(if_expr.typ),
            ExpressionKind::Call(call) => self.return_type == Some(call.return_type),
            ExpressionKind::Tuple(_) => self.return_type matches Some(Type::Tuple(_)),
            ExpressionKind::Unary(_) => self.return_type is Some,
            ExpressionKind::Index(_) => self.return_type is Some,
            ExpressionKind::ExtractTupleField(_, _) => self.return_type is Some,
            ExpressionKind::Match => self.return_type is Some,
            _ => self.return_type is None,
        }
    }
}

#[derive(Debug, PartialEq, Eq)]
pub enum ExpressionKind {
    Ident(Ident),
    Literal(Literal),
    Block(Vec<Expression>),
    Unary(Unary),
    Binary(Binary),
    Index(Index),
    Cast(Cast),
    For(For),
    Loop(Box<Expression>),
    While(While),
    If(If),
    Match,
    Tuple(Vec<Expression>),
    ExtractTupleField(Box<Expression>, usize),
    Call(Call),
    Let(Let),
    Constrain(Box<Expression>),
    Assign(Assign),
    Semi(Box<Expression>),
    Clone(Box<Expression>),
    Drop(Box<Expression>),
    Break,
    Continue,
}

/// The number that an integer literal is: as an element of the source field, and, where it
/// fits, as a signed and as an unsigned integer.
#[derive(Debug, PartialEq, Eq)]
pub struct SignedField {
    pub field_element: FieldElement,
    pub signed: Option<i128>,
    pub unsigned: Option<u128>,
}

impl SignedField {
    /// All three forms are forms of the number `n`, the first in a source field of this order. The
    /// number need not lie below the order: the integers give it exactly all the same.
    pub open spec fn is_number(self, n: int, order: nat) -> bool {
        &&& order > 0
        &&& field::le_value(self.field_element.le_bytes@) == n % order as int
        &&& match self.signed {
            Some(signed) => signed == n,
            None => n < i128::MIN || i128::MAX < n,
        }
        &&& match self.unsigned {
            Some(unsigned) => unsigned == n,
            None => n < 0 || u128::MAX < n,
        }
    }

    /// The three forms are forms of one number.
    pub open spec fn valid(self) -> bool {
        exists|n: int, order: nat| self.is_number(n, order)
    }
}

#[derive(Debug, PartialEq, Eq)]
pub enum Literal {
    Bool(bool),
    Integer(SignedField, Type),
    Unit,
    Array(ArrayLiteral),
    Vector(ArrayLiteral),
    Repeated { element: Box<Expression>, length: u32, is_vector: bool, typ: Type },
    Str(String),
    FmtStr(Vec<FmtStrFragment>, Box<Expression>),
}

/// A piece of a format string: text, or the name of the variable that is inserted there.
#[derive(Debug, PartialEq, Eq)]
pub enum FmtStrFragment {
    String(String),
    Interpolation(String),
}

#[derive(Debug, PartialEq, Eq)]
pub struct ArrayLiteral {
    pub contents: Vec<Expression>,
    pub typ: Type,
}

#[derive(Clone, Copy, Debug, PartialEq, Eq)]
pub enum UnaryOp {
    Minus,
    Not,
    Reference,
    Dereference,
}

/// A unary operation. One that is marked `skip` does nothing.
#[derive(Debug, PartialEq, Eq)]
pub struct Unary {
    pub operator: UnaryOp,
    pub rhs: Box<Expression>,
    pub skip: bool,
}

#[derive(Clone, Copy, Debug, PartialEq, Eq)]
pub enum BinaryOpKind {
    Add,
    Subtract,
    Multiply,
    Divide,
    Equal,
    NotEqual,
    Less,
    LessEqual,
    Greater,
    GreaterEqual,
    And,
    Or,
    Xor,
    ShiftRight,
    ShiftLeft,
    Modulo,
}

impl BinaryOpKind {
    /// The operator compares its operands.
    pub open spec fn is_comparison(self) -> bool {
        match self {
            BinaryOpKind::Equal => true,
            BinaryOpKind::NotEqual => true,
            BinaryOpKind::Less => true,
            BinaryOpKind::LessEqual => true,
            BinaryOpKind::Greater => true,
            BinaryOpKind::GreaterEqual => true,
            _ => false,
        }
    }
}

#[derive(Debug, PartialEq, Eq)]
pub struct Binary {
    pub lhs: Box<Expression>,
    pub operator: BinaryOpKind,
    pub rhs: Box<Expression>,
}

#[derive(Debug, PartialEq, Eq)]
pub struct Index {
    pub collection: Box<Expression>,
    pub index: Box<Expression>,
}

#[derive(Debug, PartialEq, Eq)]
pub struct Cast {
    pub lhs: Box<Expression>,
    pub typ: Type,
}

#[derive(Debug, PartialEq, Eq)]
pub struct For {
    pub index_variable: LocalId,
    pub index_type: Type,
    pub start_range: Box<Expression>,
    pub end_range: Box<Expression>,
    pub inclusive: bool,
    pub block: Box<Expression>,
}

#[derive(Debug, PartialEq, Eq)]
pub struct While {
    pub condition: Box<Expression>,
    pub body: Box<Expression>,
}

#[derive(Debug, PartialEq, Eq)]
pub struct If {
    pub condition: Box<Expression>,
    pub consequence: Box<Expression>,
    pub alternative: Option<Box<Expression>>,
    pub typ: Type,
}

#[derive(Debug, PartialEq, Eq)]
pub struct Call {
    pub func: Box<Expression>,
    pub arguments: Vec<Expression>,
    pub return_type: Type,
}

#[derive(Debug, PartialEq, Eq)]
pub struct Let {
    pub id: LocalId,
    pub mutable: bool,
    pub expression: Box<Expression>,
}

#[derive(Debug, PartialEq, Eq)]
pub struct Assign {
    pub lvalue: LValue,
    pub expression: Box<Expression>,
}

/// A place that can be assigned to.
#[derive(Debug, PartialEq, Eq)]
pub enum LValue {
    Ident(Ident),
    Index { array: Box<LValue>, index: Box<Expression> },
    MemberAccess { object: Box<LValue>, field_index: usize },
    Dereference { reference: Box<LValue>, element_type: Type },
    Clone(Box<LValue>),
}

/// A function. Its parameters are the locals that its arguments are bound to.
#[derive(Debug, PartialEq, Eq)]
pub struct Function {
    pub id: FuncId,
    pub parameters: Vec<LocalId>,
    pub body: Expression,
}

/// A program. Its entry point is its first function.
#[derive(Debug, PartialEq, Eq)]
pub struct Program {
    pub functions: Vec<Function>,
}

/// An integer of a width has two to the power of that width values.
pub proof fn law_widths_count_the_values(size: IntegerBitSize)
    ensures
        pow2(size.bits() as nat) == match size {
            IntegerBitSize::One => 2nat,
            IntegerBitSize::Eight => 0x100,
            IntegerBitSize::Sixteen => 0x1_0000,
            IntegerBitSize::ThirtyTwo => 0x1_0000_0000,
            IntegerBitSize::SixtyFour => 0x1_0000_0000_0000_0000nat,
            IntegerBitSize::HundredTwentyEight => 0x1_0000_0000_0000_0000_0000_0000_0000_0000nat,
        },
{
    lemma2_to64();
    if size is HundredTwentyEight {
        lemma_pow2_adds(64, 64);
    }
}

} // verus!
