//! The SSA types that stand for the types of expressions.

use vstd::arithmetic::power2::*;
use vstd::prelude::*;
use crate::ast;
use crate::field;
use crate::ssa::hlssa;
use crate::ssa::hlssa::{Type, TypeView};
use crate::ssa::semantics::Data;

verus! {

/// The SSA type of a value of type `typ`. A string is its UTF-8 bytes; a format string is its
/// code points, followed by what it captures; unit is the empty tuple.
pub open spec fn ssa_type(typ: ast::Type) -> TypeView
    decreases typ,
{
    match typ {
        ast::Type::Field => TypeView::Field,
        ast::Type::Array(len, element) => TypeView::Array(
            Box::new(ssa_type(*element)),
            len as usize,
        ),
        ast::Type::Integer(ast::Signedness::Unsigned, size) => TypeView::U(size.bits()),
        ast::Type::Integer(ast::Signedness::Signed, size) => TypeView::I(size.bits()),
        ast::Type::Bool => TypeView::U(1),
        ast::Type::String(len) => TypeView::Array(Box::new(TypeView::U(8)), len as usize),
        ast::Type::FmtString(len, captures) => TypeView::Tuple(
            seq![TypeView::Array(Box::new(TypeView::U(32)), len as usize)] + match *captures {
                ast::Type::Tuple(fields) => ssa_types(fields@),
                _ => seq![],
            },
        ),
        ast::Type::Unit => TypeView::Tuple(seq![]),
        ast::Type::Tuple(fields) => TypeView::Tuple(ssa_types(fields@)),
        ast::Type::Vector(element) => TypeView::Slice(Box::new(ssa_type(*element))),
        ast::Type::Reference(target, _) => TypeView::Ref(Box::new(ssa_type(*target))),
        ast::Type::Function => TypeView::Function,
    }
}

/// The SSA type of each of `types`.
pub open spec fn ssa_types(types: Seq<ast::Type>) -> Seq<TypeView>
    decreases types,
{
    Seq::new(
        types.len(),
        |i: int|
            if 0 <= i < types.len() {
                ssa_type(types[i])
            } else {
                TypeView::Field
            },
    )
}

/// Converts types.
pub struct TypeConverter {}

impl TypeConverter {
    pub fn new() -> TypeConverter {
        TypeConverter {  }
    }

    /// The SSA type of a value of type `typ`.
    pub fn convert_type(&self, typ: &ast::Type) -> (converted: Type)
        ensures
            converted@ == ssa_type(*typ),
        decreases typ, 1nat,
    {
        proof {
            reveal_with_fuel(Type::view, 2);
        }
        match typ {
            ast::Type::Field => Type::Field,
            ast::Type::Array(len, element) => {
                Type::Array(Box::new(self.convert_type(element)), *len as usize)
            },
            ast::Type::Integer(ast::Signedness::Unsigned, size) => Type::U(size.bit_size()),
            ast::Type::Integer(ast::Signedness::Signed, size) => Type::I(size.bit_size()),
            ast::Type::Bool => Type::U(1),
            ast::Type::String(len) => Type::Array(Box::new(Type::U(8)), *len as usize),
            ast::Type::FmtString(len, captures) => {
                let mut fields = vec![Type::Array(Box::new(Type::U(32)), *len as usize)];
                match &**captures {
                    ast::Type::Tuple(types) => {
                        let mut captured = self.convert_types(types);
                        let ghost views = hlssa::type_views(captured@);
                        fields.append(&mut captured);
                        assert forall|i: int| 1 <= i < fields@.len() implies (
                        #[trigger] fields@[i]).view() == views[i - 1] by {}
                    },
                    _ => {},
                }
                proof {
                    assert(Type::Tuple(fields)@->Tuple_0 =~= ssa_type(*typ)->Tuple_0);
                }
                Type::Tuple(fields)
            },
            ast::Type::Unit => {
                let fields: Vec<Type> = Vec::new();
                assert(Type::Tuple(fields)@->Tuple_0 =~= ssa_type(*typ)->Tuple_0);
                Type::Tuple(fields)
            },
            ast::Type::Tuple(types) => {
                let fields = self.convert_types(types);
                assert(Type::Tuple(fields)@->Tuple_0 =~= ssa_type(*typ)->Tuple_0);
                Type::Tuple(fields)
            },
            ast::Type::Vector(element) => Type::Slice(Box::new(self.convert_type(element))),
            ast::Type::Reference(target, _) => Type::Ref(Box::new(self.convert_type(target))),
            ast::Type::Function => Type::Function,
        }
    }

    /// The SSA type of each of `types`.
    pub fn convert_types(&self, types: &Vec<ast::Type>) -> (converted: Vec<Type>)
        ensures
            hlssa::type_views(converted@) == ssa_types(types@),
        decreases types, 0nat,
    {
        let mut converted: Vec<Type> = Vec::new();
        let mut i: usize = 0;
        while i < types.len()
            invariant
                i <= types@.len(),
                converted@.len() == i,
                forall|j: int| 0 <= j < i ==> (#[trigger] converted@[j])@ == ssa_type(types@[j]),
            decreases types@.len() - i,
        {
            let t = self.convert_type(&types[i]);
            converted.push(t);
            i += 1;
        }
        assert(hlssa::type_views(converted@) =~= ssa_types(types@));
        converted
    }
}

/// What a value of a source type is: a number below a bound, so many of something, some things side
/// by side, a function or a pointer.
pub open spec fn belongs(data: Data, typ: ast::Type) -> bool
    decreases typ, data,
{
    match typ {
        ast::Type::Field => data matches Data::Number(x) && 0 <= x < field::modulus(),
        ast::Type::Integer(_, size) => data matches Data::Number(x) && 0 <= x < pow2(
            size.bits() as nat,
        ),
        ast::Type::Bool => data == Data::Number(0) || data == Data::Number(1),
        ast::Type::Array(len, element) => data matches Data::Parts(parts) && parts.len() == len
            && forall|i: int| 0 <= i < parts.len() ==> belongs(#[trigger] parts[i], *element),
        ast::Type::Vector(element) => data matches Data::Parts(parts) && forall|i: int|
            0 <= i < parts.len() ==> belongs(#[trigger] parts[i], *element),
        ast::Type::String(len) => data matches Data::Parts(parts) && parts.len() == len
            && forall|i: int|
            0 <= i < parts.len() ==> ((#[trigger] parts[i]) matches Data::Number(x) && 0 <= x
                < 0x100),
        ast::Type::FmtString(len, captures) => data matches Data::Parts(parts) && {
            let count = match *captures {
                ast::Type::Tuple(fields) => fields@.len(),
                _ => 0,
            };
            &&& parts.len() == count + 1
            &&& parts[0] matches Data::Parts(points) && points.len() == len && forall|i: int|
                0 <= i < points.len() ==> ((#[trigger] points[i]) matches Data::Number(x) && 0 <= x
                    < 0x1_0000_0000)
            &&& match *captures {
                ast::Type::Tuple(fields) => forall|i: int|
                    0 <= i < fields@.len() ==> belongs(parts[i + 1], #[trigger] fields@[i]),
                _ => true,
            }
        },
        ast::Type::Unit => data matches Data::Parts(parts) && parts.len() == 0,
        ast::Type::Tuple(fields) => data matches Data::Parts(parts) && parts.len() == fields@.len()
            && forall|i: int|
            0 <= i < fields@.len() ==> belongs(parts[i], #[trigger] fields@[i]),
        ast::Type::Reference(_, _) => data is Pointer,
        ast::Type::Function => data is Function,
    }
}

/// What a value of an SSA type holds.
pub open spec fn fits(data: Data, typ: TypeView) -> bool
    decreases typ,
{
    match typ {
        TypeView::Field => data matches Data::Number(x) && 0 <= x < field::modulus(),
        TypeView::U(bits) => data matches Data::Number(x) && 0 <= x < pow2(bits as nat),
        TypeView::I(bits) => data matches Data::Number(x) && 0 <= x < pow2(bits as nat),
        TypeView::Array(element, len) => data matches Data::Parts(parts) && parts.len() == len
            && forall|i: int| 0 <= i < parts.len() ==> fits(#[trigger] parts[i], *element),
        TypeView::Slice(element) => data matches Data::Parts(parts) && forall|i: int|
            0 <= i < parts.len() ==> fits(#[trigger] parts[i], *element),
        TypeView::Tuple(fields) => data matches Data::Parts(parts) && parts.len() == fields.len()
            && forall|i: int| 0 <= i < fields.len() ==> fits(parts[i], #[trigger] fields[i]),
        TypeView::Ref(_) => data is Pointer,
        TypeView::Function => data is Function,
    }
}

/// The SSA type of a type has the same values, no more and no fewer.
#[verifier::spinoff_prover]
pub proof fn law_ssa_types_have_the_same_values(data: Data, typ: ast::Type)
    ensures
        fits(data, ssa_type(typ)) <==> belongs(data, typ),
    decreases typ, 0nat,
{
    lemma2_to64();
    match typ {
        ast::Type::Array(len, element) => {
            assert(ssa_type(typ) == TypeView::Array(Box::new(ssa_type(*element)), len as usize));
            if let Data::Parts(parts) = data {
                lemma_elements_fit(parts, *element);
                assert(fits(data, ssa_type(typ)) <==> parts.len() == len as usize && forall|i: int|
                    0 <= i < parts.len() ==> fits(#[trigger] parts[i], ssa_type(*element)));
                assert(belongs(data, typ) <==> parts.len() == len && forall|i: int|
                    0 <= i < parts.len() ==> belongs(#[trigger] parts[i], *element));
            }
        },
        ast::Type::Vector(element) => {
            assert(ssa_type(typ) == TypeView::Slice(Box::new(ssa_type(*element))));
            if let Data::Parts(parts) = data {
                lemma_elements_fit(parts, *element);
                assert(fits(data, ssa_type(typ)) <==> forall|i: int|
                    0 <= i < parts.len() ==> fits(#[trigger] parts[i], ssa_type(*element)));
                assert(belongs(data, typ) <==> forall|i: int|
                    0 <= i < parts.len() ==> belongs(#[trigger] parts[i], *element));
            }
        },
        ast::Type::Tuple(fields) => {
            if let Data::Parts(parts) = data {
                lemma_fields_fit(parts, fields@, 0);
                let types = ssa_types(fields@);
                assert(ssa_type(typ) == TypeView::Tuple(types));
                if fits(data, ssa_type(typ)) {
                    assert forall|i: int| 0 <= i < fields@.len() implies belongs(
                        parts[i],
                        #[trigger] fields@[i],
                    ) by {
                        assert(fits(parts[i], types[i]));
                    }
                }
                if belongs(data, typ) {
                    assert forall|i: int| 0 <= i < types.len() implies fits(
                        parts[i],
                        #[trigger] types[i],
                    ) by {
                        assert(belongs(parts[i], fields@[i]));
                    }
                }
            }
        },
        ast::Type::String(len) => {
            if let Data::Parts(parts) = data {
                assert forall|i: int| 0 <= i < parts.len() implies fits(
                    #[trigger] parts[i],
                    TypeView::U(8),
                ) <==> (parts[i] matches Data::Number(x) && 0 <= x < 0x100) by {}
            }
        },
        ast::Type::FmtString(len, captures) => {
            if let Data::Parts(parts) = data {
                let types = ssa_type(typ)->Tuple_0;
                let texts = TypeView::Array(Box::new(TypeView::U(32)), len as usize);
                assert(types[0] == texts);
                if parts.len() > 0 {
                    if let Data::Parts(points) = parts[0] {
                        assert forall|i: int| 0 <= i < points.len() implies fits(
                            #[trigger] points[i],
                            TypeView::U(32),
                        ) <==> (points[i] matches Data::Number(x) && 0 <= x < 0x1_0000_0000) by {}
                        assert(fits(parts[0], texts) <==> points.len() == len as usize && forall|
                            i: int,
                        |
                            0 <= i < points.len() ==> fits(#[trigger] points[i], TypeView::U(32)));
                    }
                }
                match *captures {
                    ast::Type::Tuple(fields) => {
                        lemma_fields_fit(parts, fields@, 1);
                        let captured = ssa_types(fields@);
                        assert(types == seq![texts] + captured);
                        assert forall|i: int| 0 <= i < fields@.len() implies types[i + 1]
                            == ssa_type(#[trigger] fields@[i]) by {
                            assert(types[i + 1] == captured[i]);
                        }
                        if fits(data, ssa_type(typ)) {
                            assert(fits(parts[0], types[0]));
                            assert forall|i: int| 0 <= i < fields@.len() implies belongs(
                                parts[i + 1],
                                #[trigger] fields@[i],
                            ) by {
                                assert(fits(parts[i + 1], types[i + 1]));
                            }
                        }
                        if belongs(data, typ) {
                            assert forall|i: int| 0 <= i < types.len() implies fits(
                                parts[i],
                                #[trigger] types[i],
                            ) by {
                                if i > 0 {
                                    let k = i - 1;
                                    assert(types[k + 1] == ssa_type(fields@[k]));
                                    assert(belongs(parts[k + 1], fields@[k]));
                                }
                            }
                        }
                    },
                    _ => {
                        assert(types =~= seq![texts]);
                        if fits(data, ssa_type(typ)) {
                            assert(fits(parts[0], types[0]));
                        }
                        if belongs(data, typ) {
                            assert(fits(parts[0], types[0]));
                            assert(fits(data, TypeView::Tuple(types)));
                        }
                    },
                }
            }
        },
        ast::Type::Unit => {
            assert(ssa_type(typ) == TypeView::Tuple(seq![]));
        },
        _ => {},
    }
}

/// The elements of a sequence.
proof fn lemma_elements_fit(parts: Seq<Data>, element: ast::Type)
    ensures
        forall|i: int|
            0 <= i < parts.len() ==> (fits(#[trigger] parts[i], ssa_type(element)) <==> belongs(
                parts[i],
                element,
            )),
    decreases element, 1nat,
{
    assert forall|i: int| 0 <= i < parts.len() implies (fits(
        #[trigger] parts[i],
        ssa_type(element),
    ) <==> belongs(parts[i], element)) by {
        law_ssa_types_have_the_same_values(parts[i], element);
    }
}

/// The fields of a tuple, from a position on.
proof fn lemma_fields_fit(parts: Seq<Data>, fields: Seq<ast::Type>, from: int)
    ensures
        forall|i: int|
            0 <= i < fields.len() ==> (fits(parts[i + from], ssa_type(#[trigger] fields[i]))
                <==> belongs(parts[i + from], fields[i])),
    decreases fields, 1nat,
{
    assert forall|i: int| 0 <= i < fields.len() implies (fits(
        parts[i + from],
        ssa_type(#[trigger] fields[i]),
    ) <==> belongs(parts[i + from], fields[i])) by {
        law_ssa_types_have_the_same_values(parts[i + from], fields[i]);
    }
}

/// A number keeps its width and its sign: an integer of the source is one of the same width, and is
/// signed exactly where the source says so.
pub proof fn law_integers_keep_their_width_and_sign(
    signedness: ast::Signedness,
    size: ast::IntegerBitSize,
)
    ensures
        ssa_type(ast::Type::Integer(signedness, size)).bit_size() == Some(size.bits()),
        ssa_type(ast::Type::Integer(signedness, size)) is I <==> signedness is Signed,
        ssa_type(ast::Type::Integer(signedness, size)) is U <==> signedness is Unsigned,
{
}

/// Truth values, the bytes of a text and the code points of a format string have no sign.
pub proof fn law_other_numbers_have_no_sign(len: u32, captures: Box<ast::Type>)
    ensures
        ssa_type(ast::Type::Bool) is U,
        ssa_type(ast::Type::String(len)) matches TypeView::Array(byte, _) && *byte is U,
        ssa_type(ast::Type::FmtString(len, captures)) matches TypeView::Tuple(fields)
            && fields.len() > 0 && (fields[0] matches TypeView::Array(point, _) && *point is U),
{
}

/// A reference is a pointer to what it refers to, whether that may be changed through it or not.
pub proof fn law_references_point_to_the_same_type(target: Box<ast::Type>, mutable: bool)
    ensures
        ssa_type(ast::Type::Reference(target, mutable)) matches TypeView::Ref(of) && *of == ssa_type(
            *target,
        ),
{
}

/// What a type is made of is converted as it would be by itself, at any depth: the elements of an
/// array or a vector, the fields of a tuple, and what a format string captures.
#[verifier::spinoff_prover]
pub proof fn law_parts_keep_their_types(
    len: u32,
    element: Box<ast::Type>,
    fields: Vec<ast::Type>,
    captures: Box<ast::Type>,
    i: int,
)
    requires
        0 <= i < fields@.len(),
        *captures == ast::Type::Tuple(fields),
    ensures
        ssa_type(ast::Type::Array(len, element)) matches TypeView::Array(of, count) && *of
            == ssa_type(*element) && count == len,
        ssa_type(ast::Type::Vector(element)) matches TypeView::Slice(of) && *of == ssa_type(
            *element,
        ),
        ssa_type(ast::Type::Tuple(fields)) matches TypeView::Tuple(types) && types.len()
            == fields@.len() && types[i] == ssa_type(fields@[i]),
        ssa_type(ast::Type::FmtString(len, captures)) matches TypeView::Tuple(types) && types.len()
            == fields@.len() + 1 && types[i + 1] == ssa_type(fields@[i]),
{
    let types = ssa_types(fields@);
    assert(types.len() == fields@.len());
    assert(types[i] == ssa_type(fields@[i]));
    assert(ssa_type(ast::Type::FmtString(len, captures))->Tuple_0 == seq![
        TypeView::Array(Box::new(TypeView::U(32)), len as usize),
    ] + types);
}

} // verus!
