//! Which expressions have code.

use std::collections::HashSet;
use vstd::prelude::*;
use crate::ast;
use crate::ast::{
    ArrayLiteral, Assign, Binary, Call, Cast, Definition, Expression, ExpressionKind, For, FuncId,
    Ident, If, Index, LValue, Let, Literal, LocalId, Signedness, Unary, UnaryOp, While,
};
use crate::lowering::expression_converter;
use crate::lowering::expression_converter::{
    ExpressionConverter, builtin, cast_target, literal_argument,
};
use crate::lowering::model;
use crate::lowering::model::{AccessStep, Builtin, LoopContext, LowerEnv, LowerState, Lowered};
use crate::lowering::stability;
use crate::lowering::type_converter;
use crate::ssa::builder::Code;
use crate::ssa::hlssa::{BinaryOp, BlockId, Endianness, Opcode, TypeView, ValueId};
use crate::text::same_text;

verus! {

broadcast use vstd::std_specs::hash::group_hash_axioms;

/// What decides whether an expression has code, as it stands in the course of a conversion: what
/// the converter was given, the locals bound since, and whether a loop encloses the expression.
pub struct Admission<'c> {
    converter: &'c ExpressionConverter<'c>,
    newly_bound: HashSet<u32>,
    newly_mutable: HashSet<u32>,
    in_loop: bool,
}

/// What has been found out about an expression: that it has no code, or that it has, and whether
/// it has a value. Where it has code, the admission has followed the conversion.
spec fn decides(
    before: Admission<'_>,
    after: Admission<'_>,
    s: LowerState,
    lowered: Lowered,
    found: Option<bool>,
) -> bool {
    &&& after.converter == before.converter
    &&& match found {
        None => lowered is None,
        Some(has_value) => lowered matches Some((next, result)) && after.follows(next) && next.loops
            == s.loops && has_value == (result is Some),
    }
}

/// What has been found out about something whose value is needed.
spec fn decides_value<T>(
    before: Admission<'_>,
    after: Admission<'_>,
    s: LowerState,
    lowered: Option<(LowerState, T)>,
    found: bool,
) -> bool {
    &&& after.converter == before.converter
    &&& found == (lowered is Some)
    &&& lowered matches Some((next, _)) ==> after.follows(next) && next.loops == s.loops
}

/// The type of the part at the end of a path, if the type has such a part.
spec fn path_type(typ: ast::Type, path: Seq<AccessStep>) -> Option<ast::Type>
    decreases path.len(),
{
    if path.len() == 0 {
        Some(typ)
    } else {
        match model::part_type(typ, path[0]) {
            None => None,
            Some(inner) => path_type(inner, path.drop_first()),
        }
    }
}

proof fn lemma_path_type_push(typ: ast::Type, path: Seq<AccessStep>, step: AccessStep)
    ensures
        path_type(typ, path.push(step)) == match path_type(typ, path) {
            None => None,
            Some(inner) => model::part_type(inner, step),
        },
    decreases path.len(),
{
    let longer = path.push(step);
    reveal_with_fuel(path_type, 2);
    if path.len() == 0 {
        assert(longer.drop_first() =~= path);
    } else {
        assert(longer.drop_first() =~= path.drop_first().push(step));
        if let Some(inner) = model::part_type(typ, path[0]) {
            lemma_path_type_push(inner, path.drop_first(), step);
        }
    }
}

/// A part can be replaced exactly where the type has it.
proof fn lemma_replaceable(
    s: LowerState,
    whole: ValueId,
    typ: ast::Type,
    path: Seq<AccessStep>,
    new_value: ValueId,
)
    ensures
        model::lower_replace(s, whole, typ, path, new_value) is Some <==> path_type(typ, path)
            is Some,
    decreases path.len(),
{
    if path.len() > 0 {
        let (s1, part) = model::lower_part(s, whole, path[0]);
        if let Some(inner) = model::part_type(typ, path[0]) {
            lemma_replaceable(s1, part, inner, path.drop_first(), new_value);
        }
    }
}

/// The end of a round changes neither what is bound nor which loops enclose.
proof fn lemma_close_round(s: LowerState, context: LoopContext, exit: BlockId)
    ensures
        stability::same_scope(s, s.close_round(context).at(exit)),
{
}

impl<'c> Admission<'c> {
    /// What is known at the start.
    pub fn new(converter: &'c ExpressionConverter<'c>) -> (admission: Admission<'c>)
        ensures
            admission.env() == converter@.env,
            forall|code: Code|
                admission.follows(#[trigger] converter@.with(code)),
    {
        let in_loop = converter.in_loop();
        Admission { converter, newly_bound: HashSet::new(), newly_mutable: HashSet::new(), in_loop }
    }

    /// What the conversion is given.
    pub closed spec fn env(self) -> LowerEnv {
        self.converter@.env
    }

    /// The conversion is at this state, as far as it decides what has code.
    pub closed spec fn follows(self, s: LowerState) -> bool {
        &&& forall|local: u32| #[trigger]
            s.bindings.contains_key(local) <==> self.converter@.bindings.contains_key(local)
                || self.newly_bound@.contains(local)
        &&& forall|local: u32| #[trigger]
            s.mutable_locals.contains(local) <==> self.converter@.mutable_locals.contains(local)
                || self.newly_mutable@.contains(local)
        &&& self.in_loop == (s.loops.len() > 0)
    }

    /// Whether an expression has code.
    pub fn admits(&mut self, expr: &Expression, Ghost(s): Ghost<LowerState>) -> (admitted: bool)
        requires
            old(self).follows(s),
        ensures
            admitted == (model::lower(old(self).env(), s, *expr) is Some),
    {
        self.find(expr, Ghost(s)).is_some()
    }

    /// Whether a local is bound.
    fn is_bound(&self, local: LocalId, Ghost(s): Ghost<LowerState>) -> (bound: bool)
        requires
            self.follows(s),
        ensures
            bound == s.bindings.contains_key(local.0),
    {
        self.converter.is_bound(local) || self.newly_bound.contains(&local.0)
    }

    /// Whether a local is mutable.
    fn is_mutable(&self, local: LocalId, Ghost(s): Ghost<LowerState>) -> (mutable: bool)
        requires
            self.follows(s),
        ensures
            mutable == s.mutable_locals.contains(local.0),
    {
        self.converter.is_mutable(local) || self.newly_mutable.contains(&local.0)
    }

    /// An expression.
    fn find(&mut self, expr: &Expression, Ghost(s): Ghost<LowerState>) -> (found: Option<bool>)
        requires
            old(self).follows(s),
        ensures
            decides(*old(self), *final(self), s, model::lower(old(self).env(), s, *expr), found),
        decreases expr, 1nat,
    {
        match &expr.kind {
            ExpressionKind::Ident(ident) => self.find_ident(ident, Ghost(s)),
            ExpressionKind::Binary(binary) => self.find_binary(binary, Ghost(s)),
            ExpressionKind::Let(binding) => self.find_let(binding, Ghost(s)),
            ExpressionKind::Block(exprs) => self.find_block(exprs, Ghost(s)),
            ExpressionKind::Constrain(inner) => self.find_constrain(inner, Ghost(s)),
            ExpressionKind::Semi(inner) => {
                if self.find(inner, Ghost(s)).is_some() {
                    Some(false)
                } else {
                    None
                }
            },
            ExpressionKind::Literal(literal) => self.find_literal(literal, Ghost(s)),
            ExpressionKind::Tuple(exprs) => self.find_tuple(exprs, Ghost(s)),
            ExpressionKind::Call(call) => self.find_call(call, Ghost(s)),
            ExpressionKind::Assign(assign) => self.find_assign(assign, Ghost(s)),
            ExpressionKind::For(for_expr) => self.find_for(for_expr, Ghost(s)),
            ExpressionKind::Index(index) => self.find_index(index, Ghost(s)),
            ExpressionKind::ExtractTupleField(tuple, field) => {
                self.find_extract(tuple, *field, Ghost(s))
            },
            ExpressionKind::Cast(cast) => self.find_cast(cast, Ghost(s)),
            ExpressionKind::If(if_expr) => self.find_if(if_expr, Ghost(s)),
            ExpressionKind::Unary(unary) => self.find_unary(unary, Ghost(s)),
            ExpressionKind::Clone(inner) => self.find(inner, Ghost(s)),
            ExpressionKind::Drop(_) => Some(false),
            ExpressionKind::Break => {
                if self.in_loop {
                    Some(false)
                } else {
                    None
                }
            },
            ExpressionKind::Continue => {
                if self.in_loop {
                    Some(false)
                } else {
                    None
                }
            },
            ExpressionKind::While(while_expr) => self.find_while(while_expr, Ghost(s)),
            ExpressionKind::Loop(body) => self.find_loop(body, Ghost(s)),
            ExpressionKind::Match => None,
        }
    }

    /// An expression whose value is needed.
    fn find_value(&mut self, expr: &Expression, Ghost(s): Ghost<LowerState>) -> (found: bool)
        requires
            old(self).follows(s),
        ensures
            decides_value(
                *old(self),
                *final(self),
                s,
                model::lower_value(old(self).env(), s, *expr),
                found,
            ),
        decreases expr, 2nat,
    {
        let found = self.find(expr, Ghost(s));
        matches!(found, Some(true))
    }

    /// Several expressions whose values are needed.
    fn find_values(&mut self, exprs: &Vec<Expression>, Ghost(s): Ghost<LowerState>) -> (found: bool)
        requires
            old(self).follows(s),
        ensures
            decides_value(
                *old(self),
                *final(self),
                s,
                model::lower_values(old(self).env(), s, exprs@, exprs@.len()),
                found,
            ),
        decreases exprs, 0nat,
    {
        let ghost env = self.env();
        let ghost mut now = s;
        let mut i: usize = 0;
        while i < exprs.len()
            invariant
                i <= exprs@.len(),
                self.converter == old(self).converter,
                env == self.env(),
                model::lower_values(env, s, exprs@, i as nat) matches Some((next, _)) && next == now,
                self.follows(now),
                now.loops == s.loops,
            decreases exprs@.len() - i,
        {
            assert(decreases_to!(exprs => exprs@[i as int]));
            if !self.find_value(&exprs[i], Ghost(now)) {
                proof {
                    if model::lower_values(env, s, exprs@, exprs@.len()) is Some {
                        expression_converter::lemma_values_prefix(
                            env,
                            s,
                            exprs@,
                            (i + 1) as nat,
                            exprs@.len(),
                        );
                    }
                }
                return false;
            }
            proof {
                now = (model::lower_value(env, now, exprs@[i as int])->0).0;
            }
            i += 1;
        }
        true
    }

    /// A block.
    fn find_block(&mut self, exprs: &Vec<Expression>, Ghost(s): Ghost<LowerState>) -> (found: Option<
        bool,
    >)
        requires
            old(self).follows(s),
        ensures
            decides(
                *old(self),
                *final(self),
                s,
                model::lower_block(old(self).env(), s, exprs@, exprs@.len()),
                found,
            ),
        decreases exprs, 0nat,
    {
        let ghost env = self.env();
        let ghost mut now = s;
        let mut has_value = false;
        let mut i: usize = 0;
        while i < exprs.len()
            invariant
                i <= exprs@.len(),
                self.converter == old(self).converter,
                env == self.env(),
                model::lower_block(env, s, exprs@, i as nat) matches Some((next, result)) && next
                    == now && has_value == (result is Some),
                self.follows(now),
                now.loops == s.loops,
            decreases exprs@.len() - i,
        {
            assert(decreases_to!(exprs => exprs@[i as int]));
            match self.find(&exprs[i], Ghost(now)) {
                None => {
                    proof {
                        if model::lower_block(env, s, exprs@, exprs@.len()) is Some {
                            expression_converter::lemma_block_prefix(
                                env,
                                s,
                                exprs@,
                                (i + 1) as nat,
                                exprs@.len(),
                            );
                        }
                    }
                    return None;
                },
                Some(has) => {
                    proof {
                        now = (model::lower(env, now, exprs@[i as int])->0).0;
                    }
                    has_value = has;
                },
            }
            i += 1;
        }
        Some(has_value)
    }

    /// An identifier that is read.
    fn find_ident(&self, ident: &Ident, Ghost(s): Ghost<LowerState>) -> (found: Option<bool>)
        requires
            self.follows(s),
        ensures
            decides(*self, *self, s, model::lower_ident(self.env(), s, *ident), found),
    {
        let known = match &ident.definition {
            Definition::Local(local) => self.is_bound(*local, Ghost(s)),
            Definition::Function(function) => self.converter.knows_function(*function),
            Definition::Global(global) => self.converter.knows_global(*global),
            _ => false,
        };
        if known {
            Some(true)
        } else {
            None
        }
    }

    /// A binary operation.
    fn find_binary(&mut self, binary: &Binary, Ghost(s): Ghost<LowerState>) -> (found: Option<bool>)
        requires
            old(self).follows(s),
        ensures
            decides(
                *old(self),
                *final(self),
                s,
                model::lower_binary(old(self).env(), s, *binary),
                found,
            ),
        decreases binary, 0nat,
    {
        if !self.find_value(&binary.lhs, Ghost(s)) {
            return None;
        }
        let ghost s1 = (model::lower_value(old(self).env(), s, *binary.lhs)->0).0;
        if !self.find_value(&binary.rhs, Ghost(s1)) {
            return None;
        }
        Some(true)
    }

    /// A `let`. What it binds is bound from there on.
    fn find_let(&mut self, binding: &Let, Ghost(s): Ghost<LowerState>) -> (found: Option<bool>)
        requires
            old(self).follows(s),
        ensures
            decides(
                *old(self),
                *final(self),
                s,
                model::lower_let(old(self).env(), s, *binding),
                found,
            ),
        decreases binding, 0nat,
    {
        if self.find(&binding.expression, Ghost(s)).is_none() {
            return None;
        }
        if binding.mutable {
            if binding.expression.return_type.is_none() {
                return None;
            }
            self.newly_mutable.insert(binding.id.0);
        }
        self.newly_bound.insert(binding.id.0);
        Some(false)
    }

    /// A constraint.
    fn find_constrain(
        &mut self,
        inner: &Expression,
        Ghost(s): Ghost<LowerState>,
    ) -> (found: Option<bool>)
        requires
            old(self).follows(s),
        ensures
            decides(
                *old(self),
                *final(self),
                s,
                model::lower_constrain(old(self).env(), s, *inner),
                found,
            ),
        decreases inner, 3nat,
    {
        if self.find_value(inner, Ghost(s)) {
            Some(false)
        } else {
            None
        }
    }

    /// A field of a tuple.
    fn find_extract(
        &mut self,
        tuple: &Expression,
        field: usize,
        Ghost(s): Ghost<LowerState>,
    ) -> (found: Option<bool>)
        requires
            old(self).follows(s),
        ensures
            decides(
                *old(self),
                *final(self),
                s,
                model::lower_extract(old(self).env(), s, *tuple, field),
                found,
            ),
        decreases tuple, 3nat,
    {
        if self.find_value(tuple, Ghost(s)) {
            Some(true)
        } else {
            None
        }
    }

    /// A cast.
    fn find_cast(&mut self, cast: &Cast, Ghost(s): Ghost<LowerState>) -> (found: Option<bool>)
        requires
            old(self).follows(s),
        ensures
            decides(
                *old(self),
                *final(self),
                s,
                model::lower_cast(old(self).env(), s, *cast),
                found,
            ),
        decreases cast, 0nat,
    {
        if self.find_value(&cast.lhs, Ghost(s)) && cast_target(&cast.typ).is_some() {
            Some(true)
        } else {
            None
        }
    }

    /// An element at an index.
    fn find_index(&mut self, index: &Index, Ghost(s): Ghost<LowerState>) -> (found: Option<bool>)
        requires
            old(self).follows(s),
        ensures
            decides(
                *old(self),
                *final(self),
                s,
                model::lower_index(old(self).env(), s, *index),
                found,
            ),
        decreases index, 0nat,
    {
        if !self.find_value(&index.collection, Ghost(s)) {
            return None;
        }
        let ghost (s1, v) = model::lower_value(old(self).env(), s, *index.collection)->0;
        let ghost s2 = s1.load_reference(v, index.collection.return_type).0;
        if self.find_value(&index.index, Ghost(s2)) {
            Some(true)
        } else {
            None
        }
    }

    /// A unary operation.
    fn find_unary(&mut self, unary: &Unary, Ghost(s): Ghost<LowerState>) -> (found: Option<bool>)
        requires
            old(self).follows(s),
        ensures
            decides(
                *old(self),
                *final(self),
                s,
                model::lower_unary(old(self).env(), s, *unary),
                found,
            ),
        decreases unary, 0nat,
    {
        if unary.skip {
            return self.find(&unary.rhs, Ghost(s));
        }
        if matches!(unary.operator, UnaryOp::Reference) {
            if let ExpressionKind::Ident(ident) = &unary.rhs.kind {
                if let Definition::Local(local) = &ident.definition {
                    if self.is_mutable(*local, Ghost(s)) {
                        return if self.is_bound(*local, Ghost(s)) {
                            Some(true)
                        } else {
                            None
                        };
                    }
                }
            }
            if let ExpressionKind::ExtractTupleField(tuple, _) = &unary.rhs.kind {
                let through_pointer = match &tuple.kind {
                    ExpressionKind::Unary(inner) => matches!(inner.operator, UnaryOp::Dereference),
                    _ => false,
                };
                if !through_pointer {
                    return None;
                }
            }
        }
        if !self.find_value(&unary.rhs, Ghost(s)) {
            return None;
        }
        if matches!(unary.operator, UnaryOp::Reference) && unary.rhs.return_type.is_none() {
            return None;
        }
        Some(true)
    }

    /// A tuple.
    fn find_tuple(
        &mut self,
        exprs: &Vec<Expression>,
        Ghost(s): Ghost<LowerState>,
    ) -> (found: Option<bool>)
        requires
            old(self).follows(s),
        ensures
            decides(
                *old(self),
                *final(self),
                s,
                model::lower_tuple(old(self).env(), s, *exprs),
                found,
            ),
        decreases exprs, 1nat,
    {
        if self.find_values(exprs, Ghost(s)) && all_fields_typed(exprs) {
            Some(true)
        } else {
            None
        }
    }

    /// An array or a vector.
    fn find_array(
        &mut self,
        array: &ArrayLiteral,
        Ghost(s): Ghost<LowerState>,
    ) -> (found: Option<bool>)
        requires
            old(self).follows(s),
        ensures
            decides(
                *old(self),
                *final(self),
                s,
                model::lower_array(old(self).env(), s, *array),
                found,
            ),
        decreases array, 0nat,
    {
        if self.find_values(&array.contents, Ghost(s)) && has_elements(&array.typ) {
            Some(true)
        } else {
            None
        }
    }

    /// A literal.
    fn find_literal(
        &mut self,
        literal: &Literal,
        Ghost(s): Ghost<LowerState>,
    ) -> (found: Option<bool>)
        requires
            old(self).follows(s),
        ensures
            decides(
                *old(self),
                *final(self),
                s,
                model::lower_literal(old(self).env(), s, *literal),
                found,
            ),
        decreases literal, 0nat,
    {
        match literal {
            Literal::Bool(_) => Some(true),
            Literal::Integer(number, typ) => {
                if is_integer_constant(number, typ) {
                    Some(true)
                } else {
                    None
                }
            },
            Literal::Unit => Some(false),
            Literal::Array(array) => self.find_array(array, Ghost(s)),
            Literal::Vector(array) => self.find_array(array, Ghost(s)),
            Literal::Repeated { element, length: _, is_vector: _, typ } => {
                if has_elements(typ) && self.find_value(element, Ghost(s)) {
                    Some(true)
                } else {
                    None
                }
            },
            Literal::Str(text) => {
                proof {
                    stability::lemma_constants_add(s, model::utf8_bytes(text@));
                }
                Some(true)
            },
            Literal::FmtStr(fragments, captures) => {
                let ghost points = model::code_points(model::format_text(fragments@));
                let ghost s1 = model::lower_constant_array(s, points, TypeView::U(32)).0;
                proof {
                    stability::lemma_constants_add(s, points);
                }
                match &captures.kind {
                    ExpressionKind::Tuple(exprs) => {
                        if self.find_values(exprs, Ghost(s1)) && all_typed(exprs) {
                            Some(true)
                        } else {
                            None
                        }
                    },
                    _ => Some(true),
                }
            },
        }
    }

    /// A place that is read through pointers.
    fn find_lvalue_read(&mut self, lvalue: &LValue, Ghost(s): Ghost<LowerState>) -> (found: bool)
        requires
            old(self).follows(s),
        ensures
            decides_value(
                *old(self),
                *final(self),
                s,
                model::lower_lvalue_read(old(self).env(), s, *lvalue),
                found,
            ),
        decreases lvalue, 0nat,
    {
        match lvalue {
            LValue::Ident(ident) => self.find_ident(ident, Ghost(s)).is_some(),
            LValue::Dereference { reference, .. } => self.find_lvalue_read(reference, Ghost(s)),
            _ => false,
        }
    }

    /// Whether a place can be found; if so, the type of what it holds, where there is such a part.
    fn find_place<'l>(&mut self, lvalue: &'l LValue, Ghost(s): Ghost<LowerState>) -> (found: Option<
        Option<&'l ast::Type>,
    >)
        requires
            old(self).follows(s),
        ensures
            decides_value(
                *old(self),
                *final(self),
                s,
                model::lower_place(old(self).env(), s, *lvalue),
                found is Some,
            ),
            found matches Some(typ) ==> ({
                let place = (model::lower_place(old(self).env(), s, *lvalue)->0).1;
                match typ {
                    None => path_type(place.typ, place.path) is None,
                    Some(typ) => path_type(place.typ, place.path) == Some(*typ),
                }
            }),
        decreases lvalue, 0nat,
    {
        match lvalue {
            LValue::Ident(ident) => {
                if let Definition::Local(local) = &ident.definition {
                    if self.is_mutable(*local, Ghost(s)) && self.is_bound(*local, Ghost(s)) {
                        return Some(Some(&ident.typ));
                    }
                }
                None
            },
            LValue::Index { array, index } => {
                let found = self.find_place(array, Ghost(s));
                if found.is_none() {
                    return None;
                }
                let ghost (s1, place) = model::lower_place(old(self).env(), s, **array)->0;
                if !self.find_value(index, Ghost(s1)) {
                    return None;
                }
                proof {
                    let (_, v) = model::lower_value(old(self).env(), s1, **index)->0;
                    lemma_path_type_push(place.typ, place.path, AccessStep::Index(v));
                }
                match found.unwrap() {
                    Some(ast::Type::Array(_, element)) => Some(Some(&**element)),
                    Some(ast::Type::Vector(element)) => Some(Some(&**element)),
                    _ => Some(None),
                }
            },
            LValue::MemberAccess { object, field_index } => {
                let found = self.find_place(object, Ghost(s));
                if found.is_none() {
                    return None;
                }
                proof {
                    let (_, place) = model::lower_place(old(self).env(), s, **object)->0;
                    lemma_path_type_push(place.typ, place.path, AccessStep::Field(*field_index));
                }
                match found.unwrap() {
                    Some(ast::Type::Tuple(fields)) => {
                        if *field_index < fields.len() {
                            Some(Some(&fields[*field_index]))
                        } else {
                            Some(None)
                        }
                    },
                    _ => Some(None),
                }
            },
            LValue::Dereference { reference, element_type } => {
                if self.find_lvalue_read(reference, Ghost(s)) {
                    Some(Some(element_type))
                } else {
                    None
                }
            },
            LValue::Clone(inner) => self.find_place(inner, Ghost(s)),
        }
    }

    /// An assignment.
    fn find_assign(&mut self, assign: &Assign, Ghost(s): Ghost<LowerState>) -> (found: Option<bool>)
        requires
            old(self).follows(s),
        ensures
            decides(
                *old(self),
                *final(self),
                s,
                model::lower_assign(old(self).env(), s, *assign),
                found,
            ),
        decreases assign, 0nat,
    {
        if !self.find_value(&assign.expression, Ghost(s)) {
            return None;
        }
        let ghost (s1, new_value) = model::lower_value(old(self).env(), s, *assign.expression)->0;
        let found = self.find_place(&assign.lvalue, Ghost(s1));
        if found.is_none() {
            return None;
        }
        proof {
            let (s2, place) = model::lower_place(old(self).env(), s1, assign.lvalue)->0;
            let (s3, whole) = s2.value(Opcode::Load, seq![place.root], seq![]);
            lemma_replaceable(s3, whole, place.typ, place.path, new_value);
            stability::lemma_replace_adds(s3, whole, place.typ, place.path, new_value);
        }
        if found.unwrap().is_some() {
            Some(false)
        } else {
            None
        }
    }

    /// A `for` loop.
    fn find_for(&mut self, for_expr: &For, Ghost(s): Ghost<LowerState>) -> (found: Option<bool>)
        requires
            old(self).follows(s),
        ensures
            decides(
                *old(self),
                *final(self),
                s,
                model::lower_for(old(self).env(), s, *for_expr),
                found,
            ),
        decreases for_expr, 0nat,
    {
        let ghost env = self.env();
        if !self.find_value(&for_expr.start_range, Ghost(s)) {
            return None;
        }
        let ghost (s1, start) = model::lower_value(env, s, *for_expr.start_range)->0;
        if !self.find_value(&for_expr.end_range, Ghost(s1)) {
            return None;
        }
        if !has_bit_size(&for_expr.index_type) {
            return None;
        }
        let ghost (s2, end_raw) = model::lower_value(env, s1, *for_expr.end_range)->0;
        let ghost typ = type_converter::ssa_type(for_expr.index_type);
        let ghost bits = typ.bit_size()->0;
        let ghost (s3, end) = if for_expr.inclusive {
            s2.next_index(end_raw, bits)
        } else {
            (s2, end_raw)
        };
        let ghost header = s3.code.next_block();
        let ghost body = s3.add_block().code.next_block();
        let ghost exit = s3.add_block().add_block().code.next_block();
        let ghost s4 = s3.add_block().add_block().add_block();
        let ghost index = s4.next();
        let ghost (s6, cond) = s4.parameter(header, typ).at(header).binary(BinaryOp::Lt, index, end);
        let ghost s7 = s6.branch(header, cond, body, exit).jump(s3.current, header, seq![start]);
        let ghost context = LoopContext {
            loop_header: header,
            exit_block: exit,
            for_loop_index: Some((index, bits)),
        };
        let ghost s8 = s7.at(body).bind(for_expr.index_variable, index).enter(context);
        let was_in_loop = self.in_loop;
        self.newly_bound.insert(for_expr.index_variable.0);
        self.in_loop = true;
        if self.find(&for_expr.block, Ghost(s8)).is_none() {
            return None;
        }
        proof {
            let (s9, _) = model::lower(env, s8, *for_expr.block)->0;
            assert(s.loops.push(context).drop_last() =~= s.loops);
            lemma_close_round(s9.leave(), context, exit);
        }
        self.in_loop = was_in_loop;
        Some(false)
    }

    /// A `while` loop.
    fn find_while(
        &mut self,
        while_expr: &While,
        Ghost(s): Ghost<LowerState>,
    ) -> (found: Option<bool>)
        requires
            old(self).follows(s),
        ensures
            decides(
                *old(self),
                *final(self),
                s,
                model::lower_while(old(self).env(), s, *while_expr),
                found,
            ),
        decreases while_expr, 0nat,
    {
        let ghost env = self.env();
        let ghost header = s.code.next_block();
        let ghost body = s.add_block().code.next_block();
        let ghost exit = s.add_block().add_block().code.next_block();
        let ghost s1 = s.add_block().add_block().add_block().jump(s.current, header, seq![]).at(
            header,
        );
        if !self.find_value(&while_expr.condition, Ghost(s1)) {
            return None;
        }
        let ghost (s2, cond) = model::lower_value(env, s1, *while_expr.condition)->0;
        let ghost context = LoopContext {
            loop_header: header,
            exit_block: exit,
            for_loop_index: None,
        };
        let ghost s3 = s2.branch(header, cond, body, exit).at(body).enter(context);
        let was_in_loop = self.in_loop;
        self.in_loop = true;
        if self.find(&while_expr.body, Ghost(s3)).is_none() {
            return None;
        }
        proof {
            let (s4, _) = model::lower(env, s3, *while_expr.body)->0;
            assert(s.loops.push(context).drop_last() =~= s.loops);
            lemma_close_round(s4.leave(), context, exit);
        }
        self.in_loop = was_in_loop;
        Some(false)
    }

    /// A `loop`.
    fn find_loop(&mut self, body: &Expression, Ghost(s): Ghost<LowerState>) -> (found: Option<bool>)
        requires
            old(self).follows(s),
        ensures
            decides(
                *old(self),
                *final(self),
                s,
                model::lower_loop(old(self).env(), s, *body),
                found,
            ),
        decreases body, 3nat,
    {
        let ghost env = self.env();
        let ghost header = s.code.next_block();
        let ghost exit = s.add_block().code.next_block();
        let ghost context = LoopContext {
            loop_header: header,
            exit_block: exit,
            for_loop_index: None,
        };
        let ghost s1 = s.add_block().add_block().jump(s.current, header, seq![]).at(header).enter(
            context,
        );
        let was_in_loop = self.in_loop;
        self.in_loop = true;
        if self.find(body, Ghost(s1)).is_none() {
            return None;
        }
        proof {
            let (s2, _) = model::lower(env, s1, *body)->0;
            assert(s.loops.push(context).drop_last() =~= s.loops);
            lemma_close_round(s2.leave(), context, exit);
        }
        self.in_loop = was_in_loop;
        Some(false)
    }

    /// An `if`. Where its condition is known, only the branch that is taken counts.
    fn find_if(&mut self, if_expr: &If, Ghost(s): Ghost<LowerState>) -> (found: Option<bool>)
        requires
            old(self).follows(s),
        ensures
            decides(
                *old(self),
                *final(self),
                s,
                model::lower_if(old(self).env(), s, *if_expr),
                found,
            ),
        decreases if_expr, 0nat,
    {
        let ghost env = self.env();
        if let Some(known) = self.converter.try_eval_const_bool(&if_expr.condition) {
            if known {
                return self.find(&if_expr.consequence, Ghost(s));
            }
            return match &if_expr.alternative {
                Some(alternative) => self.find(alternative, Ghost(s)),
                None => Some(false),
            };
        }
        if !self.find_value(&if_expr.condition, Ghost(s)) {
            return None;
        }
        let ghost (s1, cond) = model::lower_value(env, s, *if_expr.condition)->0;
        let ghost then_block = s1.code.next_block();
        let ghost else_block = s1.add_block().code.next_block();
        let ghost s2 = s1.add_block().add_block().add_block().branch(
            s1.current,
            cond,
            then_block,
            else_block,
        ).at(then_block);
        let then_found = self.find(&if_expr.consequence, Ghost(s2));
        if then_found.is_none() {
            return None;
        }
        let ghost (s3, _) = model::lower(env, s2, *if_expr.consequence)->0;
        let else_found = match &if_expr.alternative {
            Some(alternative) => self.find(alternative, Ghost(s3.at(else_block))),
            None => Some(false),
        };
        if else_found.is_none() {
            return None;
        }
        if matches!(if_expr.typ, ast::Type::Unit) {
            Some(false)
        } else if then_found.unwrap() && else_found.unwrap() {
            Some(true)
        } else {
            None
        }
    }

    /// A call.
    fn find_call(&mut self, call: &Call, Ghost(s): Ghost<LowerState>) -> (found: Option<bool>)
        requires
            old(self).follows(s),
        ensures
            decides(
                *old(self),
                *final(self),
                s,
                model::lower_call(old(self).env(), s, *call),
                found,
            ),
        decreases call, 3nat,
    {
        if let ExpressionKind::Ident(ident) = &call.func.kind {
            return match &ident.definition {
                Definition::Function(function) => self.find_static_call(*function, call, Ghost(s)),
                Definition::Builtin(name) => self.find_builtin_call(name.as_str(), call, Ghost(s)),
                Definition::LowLevel(name) => self.find_lowlevel_call(name.as_str(), call, Ghost(s)),
                Definition::Oracle(name) => {
                    if same_text(name.as_str(), "print") {
                        Some(false)
                    } else {
                        None
                    }
                },
                _ => None,
            };
        }
        if !self.find_values(&call.arguments, Ghost(s)) {
            return None;
        }
        let ghost s1 = (model::lower_values(
            old(self).env(),
            s,
            call.arguments@,
            call.arguments@.len(),
        )->0).0;
        if self.find_value(&call.func, Ghost(s1)) {
            Some(!matches!(call.return_type, ast::Type::Unit))
        } else {
            None
        }
    }

    /// A call of a function.
    fn find_static_call(
        &mut self,
        function: FuncId,
        call: &Call,
        Ghost(s): Ghost<LowerState>,
    ) -> (found: Option<bool>)
        requires
            old(self).follows(s),
        ensures
            decides(
                *old(self),
                *final(self),
                s,
                model::lower_static_call(old(self).env(), s, function, *call),
                found,
            ),
        decreases call, 0nat,
    {
        if self.find_values(&call.arguments, Ghost(s)) && self.converter.knows_function(function) {
            Some(!matches!(call.return_type, ast::Type::Unit))
        } else {
            None
        }
    }

    /// A call's first argument, whose value is needed.
    fn find_first(&mut self, call: &Call, Ghost(s): Ghost<LowerState>) -> (found: bool)
        requires
            old(self).follows(s),
        ensures
            decides_value(
                *old(self),
                *final(self),
                s,
                model::lower_first(old(self).env(), s, *call),
                found,
            ),
        decreases call, 0nat,
    {
        if call.arguments.len() == 0 {
            return false;
        }
        assert(decreases_to!(call => call.arguments@[0]));
        self.find_value(&call.arguments[0], Ghost(s))
    }

    /// A call's first two arguments, whose values are needed.
    fn find_first_two(&mut self, call: &Call, Ghost(s): Ghost<LowerState>) -> (found: bool)
        requires
            old(self).follows(s),
        ensures
            final(self).converter == old(self).converter,
            found == (model::lower_first_two(old(self).env(), s, *call) is Some),
            model::lower_first_two(old(self).env(), s, *call) matches Some((next, _, _))
                ==> final(self).follows(next) && next.loops == s.loops,
        decreases call, 0nat,
    {
        if call.arguments.len() <= 1 {
            return false;
        }
        assert(decreases_to!(call => call.arguments@[0]));
        assert(decreases_to!(call => call.arguments@[1]));
        if !self.find_value(&call.arguments[0], Ghost(s)) {
            return false;
        }
        let ghost s1 = (model::lower_value(old(self).env(), s, call.arguments@[0])->0).0;
        self.find_value(&call.arguments[1], Ghost(s1))
    }

    /// A number in another base.
    fn find_to_radix(
        &mut self,
        call: &Call,
        Ghost(endianness): Ghost<Endianness>,
        Ghost(s): Ghost<LowerState>,
    ) -> (found: Option<bool>)
        requires
            old(self).follows(s),
        ensures
            decides(
                *old(self),
                *final(self),
                s,
                model::lower_to_radix(old(self).env(), s, *call, endianness),
                found,
            ),
        decreases call, 1nat,
    {
        if self.find_first_two(call, Ghost(s)) && matches!(call.return_type, ast::Type::Array(_, _)) {
            Some(true)
        } else {
            None
        }
    }

    /// A number in binary.
    fn find_to_bits(
        &mut self,
        call: &Call,
        Ghost(endianness): Ghost<Endianness>,
        Ghost(s): Ghost<LowerState>,
    ) -> (found: Option<bool>)
        requires
            old(self).follows(s),
        ensures
            decides(
                *old(self),
                *final(self),
                s,
                model::lower_to_bits(old(self).env(), s, *call, endianness),
                found,
            ),
        decreases call, 1nat,
    {
        if self.find_first(call, Ghost(s)) && matches!(call.return_type, ast::Type::Array(_, _)) {
            Some(true)
        } else {
            None
        }
    }

    /// The length of an array or a vector.
    fn find_array_len(&mut self, call: &Call, Ghost(s): Ghost<LowerState>) -> (found: Option<bool>)
        requires
            old(self).follows(s),
        ensures
            decides(
                *old(self),
                *final(self),
                s,
                model::lower_array_len(old(self).env(), s, *call),
                found,
            ),
        decreases call, 1nat,
    {
        if call.arguments.len() == 0 {
            return None;
        }
        assert(decreases_to!(call => call.arguments@[0]));
        let admitted = match &call.arguments[0].return_type {
            Some(ast::Type::Array(_, _)) => self.find(&call.arguments[0], Ghost(s)).is_some(),
            Some(ast::Type::Vector(_)) => self.find_first(call, Ghost(s)),
            _ => false,
        };
        if admitted {
            Some(true)
        } else {
            None
        }
    }

    /// A call of a builtin.
    fn find_builtin_call(
        &mut self,
        name: &str,
        call: &Call,
        Ghost(s): Ghost<LowerState>,
    ) -> (found: Option<bool>)
        requires
            old(self).follows(s),
        ensures
            decides(
                *old(self),
                *final(self),
                s,
                model::lower_builtin_call(old(self).env(), s, name@, *call),
                found,
            ),
        decreases call, 2nat,
    {
        match builtin(name) {
            Some(Builtin::AssertEq) => {
                if self.find_first_two(call, Ghost(s)) {
                    Some(false)
                } else {
                    None
                }
            },
            Some(Builtin::StaticAssert) => {
                if self.find_first(call, Ghost(s)) {
                    Some(false)
                } else {
                    None
                }
            },
            Some(Builtin::ArrayLen) => self.find_array_len(call, Ghost(s)),
            Some(Builtin::ToRadix(endianness)) => {
                self.find_to_radix(call, Ghost(endianness), Ghost(s))
            },
            Some(Builtin::ToBits(endianness)) => {
                self.find_to_bits(call, Ghost(endianness), Ghost(s))
            },
            Some(Builtin::RangeConstraint) => {
                if self.find_first(call, Ghost(s)) && literal_argument(call, 1).is_some() {
                    Some(false)
                } else {
                    None
                }
            },
            Some(Builtin::IsUnconstrained) => Some(true),
            Some(Builtin::AsWitness) => {
                if call.arguments.len() == 0 {
                    return None;
                }
                assert(decreases_to!(call => call.arguments@[0]));
                if self.find(&call.arguments[0], Ghost(s)).is_some() {
                    Some(false)
                } else {
                    None
                }
            },
            Some(Builtin::AsVector) => {
                if self.find_first(call, Ghost(s)) {
                    Some(true)
                } else {
                    None
                }
            },
            None => self.find_replacement_call(name, call, Ghost(s)),
        }
    }

    /// A call of a low-level function.
    fn find_lowlevel_call(
        &mut self,
        name: &str,
        call: &Call,
        Ghost(s): Ghost<LowerState>,
    ) -> (found: Option<bool>)
        requires
            old(self).follows(s),
        ensures
            decides(
                *old(self),
                *final(self),
                s,
                model::lower_lowlevel_call(old(self).env(), s, name@, *call),
                found,
            ),
        decreases call, 2nat,
    {
        if same_text(name, "unsafe_cast") || same_text(name, "spread_inner") || same_text(
            name,
            "unspread_inner",
        ) {
            self.find_intrinsic(name, call, Ghost(s))
        } else {
            self.find_replacement_call(name, call, Ghost(s))
        }
    }

    /// A call of a function that another stands in for.
    fn find_replacement_call(
        &mut self,
        name: &str,
        call: &Call,
        Ghost(s): Ghost<LowerState>,
    ) -> (found: Option<bool>)
        requires
            old(self).follows(s),
        ensures
            decides(
                *old(self),
                *final(self),
                s,
                model::lower_replacement_call(old(self).env(), s, name@, *call),
                found,
            ),
        decreases call, 1nat,
    {
        match self.converter.replacement_for(name, &call.return_type) {
            None => None,
            Some(function) => self.find_static_call(function, call, Ghost(s)),
        }
    }

    /// A call of a low-level function that the compiler implements itself.
    fn find_intrinsic(
        &mut self,
        name: &str,
        call: &Call,
        Ghost(s): Ghost<LowerState>,
    ) -> (found: Option<bool>)
        requires
            old(self).follows(s),
        ensures
            decides(
                *old(self),
                *final(self),
                s,
                model::lower_intrinsic(old(self).env(), s, name@, *call),
                found,
            ),
        decreases call, 1nat,
    {
        let sound = if same_text(name, "unsafe_cast") {
            cast_target(&call.return_type).is_some()
        } else {
            match literal_argument(call, 1) {
                None => false,
                Some(number) => {
                    let bits = #[verifier::truncate] (number as u32);
                    1 <= bits && bits <= 16
                },
            }
        };
        if sound && self.find_first(call, Ghost(s)) {
            Some(true)
        } else {
            None
        }
    }
}

/// Whether a type is that of a sequence.
fn has_elements(typ: &ast::Type) -> (has: bool)
    ensures
        has == (model::element_type(*typ) is Some),
{
    matches!(typ, ast::Type::Array(_, _) | ast::Type::Vector(_))
}

/// Whether the values of a type have a width.
fn has_bit_size(typ: &ast::Type) -> (has: bool)
    ensures
        has == (type_converter::ssa_type(*typ).bit_size() is Some),
{
    matches!(typ, ast::Type::Field | ast::Type::Integer(_, _) | ast::Type::Bool)
}

/// Whether an integer literal of this type is a constant.
fn is_integer_constant(number: &ast::SignedField, typ: &ast::Type) -> (is: bool)
    ensures
        is == (model::integer_constant(*number, *typ) is Some),
{
    match typ {
        ast::Type::Field => true,
        ast::Type::Integer(Signedness::Signed, size) => {
            number.signed.is_some() && size.bit_size() < 128
        },
        ast::Type::Integer(Signedness::Unsigned, _) => number.unsigned.is_some(),
        ast::Type::Bool => number.unsigned.is_some(),
        _ => false,
    }
}

/// Whether each of the expressions has a type.
fn all_typed(exprs: &Vec<Expression>) -> (typed: bool)
    ensures
        typed == model::all_typed(exprs@),
{
    let mut i: usize = 0;
    while i < exprs.len()
        invariant
            i <= exprs@.len(),
            forall|j: int| 0 <= j < i ==> (#[trigger] exprs@[j]).return_type is Some,
        decreases exprs@.len() - i,
    {
        if exprs[i].return_type.is_none() {
            assert(exprs@[i as int].return_type is None);
            return false;
        }
        i += 1;
    }
    true
}

/// Whether each of the expressions can be a field of a tuple.
fn all_fields_typed(exprs: &Vec<Expression>) -> (typed: bool)
    ensures
        typed == model::all_fields_typed(exprs@),
{
    let mut i: usize = 0;
    while i < exprs.len()
        invariant
            i <= exprs@.len(),
            forall|j: int| 0 <= j < i ==> model::field_type(#[trigger] exprs@[j]) is Some,
        decreases exprs@.len() - i,
    {
        let names_function = match &exprs[i].kind {
            ExpressionKind::Ident(ident) => matches!(ident.definition, Definition::Function(_)),
            _ => false,
        };
        if !names_function && exprs[i].return_type.is_none() {
            assert(model::field_type(exprs@[i as int]) is None);
            return false;
        }
        i += 1;
    }
    true
}

} // verus!
