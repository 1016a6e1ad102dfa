//! What expressions are worth: literals, names, operators, constraints and arguments.

use vstd::prelude::*;
use crate::error::{ErrorView, FailureView, Outcome, Span};
use crate::expr::{
    all_names,
    lemma_all_names,
    lemma_same_value,
    resolved,
    BinaryOp,
    Expression,
    ExpressionKind,
    ExpressionName,
    ExpressionValue,
    UnaryOp,
};
use crate::integer::{bit, Integer};
use crate::label::{LabelContext, Labels};
use crate::model::{
    address_value,
    argument_value,
    constraint_checked,
    constraint_env,
    current_context,
    expr_resolvable,
    expr_value,
    expr_value_here,
    instruction_resolvable,
    label_env,
    production_env,
    production_value,
    InstructionView,
    State,
};
use crate::rule::{argument_count, constraint_names, production_names, PatternSegment, Rule};

verus! {

/// An integer without a given width, as a value.
pub open spec fn number(value: int) -> ExpressionValue {
    ExpressionValue::Integer(Integer { value: value as i64, explicit_width: None })
}

/// A value that an operator computes, where a machine integer can hold it.
pub open spec fn is_number(result: Outcome<ExpressionValue>, value: int) -> bool {
    if -0x8000_0000_0000_0000 <= value <= 0x7fff_ffff_ffff_ffff {
        result == Ok::<ExpressionValue, FailureView>(number(value))
    } else {
        result == Err::<ExpressionValue, FailureView>(FailureView::Overflow)
    }
}

/// An address as a value. One that is too large for an integer wraps round.
pub open spec fn place(address: usize) -> ExpressionValue {
    if address <= 0x7fff_ffff_ffff_ffff {
        number(address as int)
    } else {
        number(address - 0x1_0000_0000_0000_0000)
    }
}

/// An address is the same value wherever it becomes one.
pub proof fn address_becomes_a_value(address: usize)
    ensures
        address_value(address) == place(address),
{
    let wide = address as u64;
    assert(wide as i64 == if wide <= 0x7fff_ffff_ffff_ffff {
        wide as int
    } else {
        wide - 0x1_0000_0000_0000_0000
    }) by (bit_vector);
    assert(address as i64 == wide as i64) by (bit_vector)
        requires
            wide == address,
    ;
}

/// The failure with a message at a place.
pub open spec fn says(message: Seq<char>, span: Span) -> FailureView {
    FailureView::Error(ErrorView { message, span })
}

/// A name with one variable, as an expression.
pub open spec fn named(name: ExpressionName, span: Span) -> Expression {
    Expression { kind: ExpressionKind::Variable(name), span }
}

// ---- How expressions are made up ----

/// A literal is worth what it says, and a name what the names are worth.
pub proof fn literals_and_names(
    value: ExpressionValue,
    name: ExpressionName,
    span: Span,
    env: spec_fn(ExpressionName, Span) -> Outcome<ExpressionValue>,
)
    ensures
        resolved(Expression { kind: ExpressionKind::Literal(value), span }, env) == Ok::<
            ExpressionValue,
            FailureView,
        >(value),
        resolved(named(name, span), env) == env(name, span),
{
}

/// An operand that fails is what becomes of the whole expression, the left one first.
pub proof fn failing_operand_decides(
    op: UnaryOp,
    other: BinaryOp,
    x: Box<Expression>,
    y: Box<Expression>,
    left: usize,
    right: usize,
    span: Span,
    env: spec_fn(ExpressionName, Span) -> Outcome<ExpressionValue>,
)
    ensures
        resolved(*x, env) is Err ==> {
            &&& resolved(Expression { kind: ExpressionKind::Unary(op, x), span }, env) == resolved(
                *x,
                env,
            )
            &&& resolved(Expression { kind: ExpressionKind::Binary(other, x, y), span }, env)
                == resolved(*x, env)
            &&& resolved(Expression { kind: ExpressionKind::Slice(x, left, right), span }, env)
                == resolved(*x, env)
        },
        resolved(*x, env) is Ok && resolved(*y, env) is Err ==> resolved(
            Expression { kind: ExpressionKind::Binary(other, x, y), span },
            env,
        ) == resolved(*y, env),
{
}

/// What the operators with one operand, and slices, are worth.
pub proof fn operators_on_one_operand(
    x: Box<Expression>,
    left: usize,
    right: usize,
    span: Span,
    env: spec_fn(ExpressionName, Span) -> Outcome<ExpressionValue>,
)
    ensures
        ({
            let minus = resolved(
                Expression { kind: ExpressionKind::Unary(UnaryOp::Neg, x), span },
                env,
            );
            let not = resolved(
                Expression { kind: ExpressionKind::Unary(UnaryOp::Not, x), span },
                env,
            );
            let slice = resolved(
                Expression { kind: ExpressionKind::Slice(x, left, right), span },
                env,
            );
            match resolved(*x, env) {
                Ok(ExpressionValue::Integer(a)) => {
                    &&& is_number(minus, -a.value)
                    &&& is_number(not, -1 - a.value)
                    &&& right <= left && left - right < usize::MAX ==> slice == Ok::<
                        ExpressionValue,
                        FailureView,
                    >(ExpressionValue::Integer(a.sliced(left, right)))
                    &&& right > left || left - right == usize::MAX ==> slice == Err::<
                        ExpressionValue,
                        FailureView,
                    >(FailureView::Overflow)
                },
                Ok(ExpressionValue::Boolean(a)) => {
                    &&& not == Ok::<ExpressionValue, FailureView>(ExpressionValue::Boolean(!a))
                    &&& minus == Err::<ExpressionValue, FailureView>(
                        says("invalid operand type"@, span),
                    )
                    &&& slice == Err::<ExpressionValue, FailureView>(
                        says("invalid operand type"@, span),
                    )
                },
                Err(_) => true,
            }
        }),
{
    match resolved(*x, env) {
        Ok(ExpressionValue::Integer(a)) => {
            let v = a.value;
            assert(!v == -1 - v) by (bit_vector);
        },
        _ => {},
    }
}

/// The value of an operator with two operands.
pub open spec fn combined(
    op: BinaryOp,
    x: Box<Expression>,
    y: Box<Expression>,
    span: Span,
    env: spec_fn(ExpressionName, Span) -> Outcome<ExpressionValue>,
) -> Outcome<ExpressionValue> {
    resolved(Expression { kind: ExpressionKind::Binary(op, x, y), span }, env)
}

/// What arithmetic on two integers is worth: sum, difference and product, where a machine integer
/// can hold them.
pub proof fn arithmetic_on_integers(
    x: Box<Expression>,
    y: Box<Expression>,
    span: Span,
    env: spec_fn(ExpressionName, Span) -> Outcome<ExpressionValue>,
    a: Integer,
    b: Integer,
)
    requires
        resolved(*x, env) == Ok::<ExpressionValue, FailureView>(ExpressionValue::Integer(a)),
        resolved(*y, env) == Ok::<ExpressionValue, FailureView>(ExpressionValue::Integer(b)),
    ensures
        is_number(combined(BinaryOp::Add, x, y, span, env), a.value + b.value),
        is_number(combined(BinaryOp::Sub, x, y, span, env), a.value - b.value),
        is_number(combined(BinaryOp::Mul, x, y, span, env), a.value * b.value),
{
}

/// What comparing two integers is worth.
pub proof fn comparisons_of_integers(
    x: Box<Expression>,
    y: Box<Expression>,
    span: Span,
    env: spec_fn(ExpressionName, Span) -> Outcome<ExpressionValue>,
    a: Integer,
    b: Integer,
)
    requires
        resolved(*x, env) == Ok::<ExpressionValue, FailureView>(ExpressionValue::Integer(a)),
        resolved(*y, env) == Ok::<ExpressionValue, FailureView>(ExpressionValue::Integer(b)),
    ensures
        combined(BinaryOp::Eq, x, y, span, env) == Ok::<ExpressionValue, FailureView>(
            ExpressionValue::Boolean(a.value == b.value),
        ),
        combined(BinaryOp::Neq, x, y, span, env) == Ok::<ExpressionValue, FailureView>(
            ExpressionValue::Boolean(a.value != b.value),
        ),
        combined(BinaryOp::Lt, x, y, span, env) == Ok::<ExpressionValue, FailureView>(
            ExpressionValue::Boolean(a.value < b.value),
        ),
        combined(BinaryOp::Lte, x, y, span, env) == Ok::<ExpressionValue, FailureView>(
            ExpressionValue::Boolean(a.value <= b.value),
        ),
        combined(BinaryOp::Gt, x, y, span, env) == Ok::<ExpressionValue, FailureView>(
            ExpressionValue::Boolean(a.value > b.value),
        ),
        combined(BinaryOp::Gte, x, y, span, env) == Ok::<ExpressionValue, FailureView>(
            ExpressionValue::Boolean(a.value >= b.value),
        ),
{
}

/// A number, and bit `i` of it.
pub open spec fn is_number_with_bit(result: Outcome<ExpressionValue>, i: int, b: bool) -> bool {
    result matches Ok(ExpressionValue::Integer(r)) && r.explicit_width is None && bit(r.value, i)
        == b
}

/// What the operators on bits are worth, bit by bit: and, or, exclusive or, and shifts to the left
/// and to the right, by less than the number of bits that the machine has.
pub proof fn operators_on_bits(
    x: Box<Expression>,
    y: Box<Expression>,
    span: Span,
    env: spec_fn(ExpressionName, Span) -> Outcome<ExpressionValue>,
    a: Integer,
    b: Integer,
    i: int,
)
    requires
        resolved(*x, env) == Ok::<ExpressionValue, FailureView>(ExpressionValue::Integer(a)),
        resolved(*y, env) == Ok::<ExpressionValue, FailureView>(ExpressionValue::Integer(b)),
        0 <= i < 64,
    ensures
        is_number_with_bit(
            combined(BinaryOp::And, x, y, span, env),
            i,
            bit(a.value, i) && bit(b.value, i),
        ),
        is_number_with_bit(
            combined(BinaryOp::Or, x, y, span, env),
            i,
            bit(a.value, i) || bit(b.value, i),
        ),
        is_number_with_bit(
            combined(BinaryOp::Xor, x, y, span, env),
            i,
            bit(a.value, i) != bit(b.value, i),
        ),
        0 <= b.value < 64 ==> is_number_with_bit(
            combined(BinaryOp::Shl, x, y, span, env),
            i,
            i >= b.value && bit(a.value, i - b.value),
        ),
        0 <= b.value < 64 ==> is_number_with_bit(
            combined(BinaryOp::Shr, x, y, span, env),
            i,
            bit(a.value, i + b.value),
        ),
        !(0 <= b.value < 64) ==> combined(BinaryOp::Shl, x, y, span, env) == Err::<
            ExpressionValue,
            FailureView,
        >(FailureView::Overflow),
        !(0 <= b.value < 64) ==> combined(BinaryOp::Shr, x, y, span, env) == Err::<
            ExpressionValue,
            FailureView,
        >(FailureView::Overflow),
{
    let v = a.value;
    let w = b.value;
    let k = i as u64;
    assert(((v & w) >> k) & 1 == 1 <==> (v >> k) & 1 == 1 && (w >> k) & 1 == 1) by (bit_vector)
        requires
            k < 64,
    ;
    assert(((v | w) >> k) & 1 == 1 <==> (v >> k) & 1 == 1 || (w >> k) & 1 == 1) by (bit_vector)
        requires
            k < 64,
    ;
    assert(((v ^ w) >> k) & 1 == 1 <==> ((v >> k) & 1 == 1) != ((w >> k) & 1 == 1)) by (bit_vector)
        requires
            k < 64,
    ;
    if 0 <= w < 64 {
        let n = w as u64;
        if i >= w {
            let m = (i - w) as u64;
            assert(((v << n) >> k) & 1 == 1 <==> (v >> m) & 1 == 1) by (bit_vector)
                requires
                    n < 64,
                    k < 64,
                    n <= k,
                    m == k - n,
            ;
        } else {
            assert(((v << n) >> k) & 1 != 1) by (bit_vector)
                requires
                    n < 64,
                    k < n,
            ;
        }
        if i + w < 64 {
            let m = (i + w) as u64;
            assert(((v >> n) >> k) & 1 == 1 <==> (v >> m) & 1 == 1) by (bit_vector)
                requires
                    n < 64,
                    m == k + n,
                    m < 64,
            ;
        } else {
            assert(((v >> n) >> k) & 1 == 1 <==> v < 0) by (bit_vector)
                requires
                    n < 64,
                    k < 64,
                    k + n >= 64,
            ;
        }
    }
}

/// What the operators on two truth values are worth, and which operands are refused.
pub proof fn operators_on_truth_values(
    op: BinaryOp,
    x: Box<Expression>,
    y: Box<Expression>,
    span: Span,
    env: spec_fn(ExpressionName, Span) -> Outcome<ExpressionValue>,
)
    ensures
        ({
            let refused = Err::<ExpressionValue, FailureView>(says("invalid operand type"@, span));
            match (resolved(*x, env), resolved(*y, env)) {
                (Ok(ExpressionValue::Boolean(a)), Ok(ExpressionValue::Boolean(b))) => combined(
                    op,
                    x,
                    y,
                    span,
                    env,
                ) == (match op {
                    BinaryOp::And => Ok(ExpressionValue::Boolean(a && b)),
                    BinaryOp::Or => Ok(ExpressionValue::Boolean(a || b)),
                    BinaryOp::Xor => Ok(ExpressionValue::Boolean(a != b)),
                    BinaryOp::Eq => Ok(ExpressionValue::Boolean(a == b)),
                    BinaryOp::Neq => Ok(ExpressionValue::Boolean(a != b)),
                    _ => refused,
                }),
                (Ok(ExpressionValue::Boolean(_)), Ok(ExpressionValue::Integer(_))) => combined(
                    op,
                    x,
                    y,
                    span,
                    env,
                ) == refused,
                (Ok(ExpressionValue::Integer(_)), Ok(ExpressionValue::Boolean(_))) => combined(
                    op,
                    x,
                    y,
                    span,
                    env,
                ) == refused,
                _ => true,
            }
        }),
{
}

/// Something is true of all names in an expression where it is true of those in its parts.
pub proof fn names_are_those_of_the_parts(
    op: UnaryOp,
    other: BinaryOp,
    value: ExpressionValue,
    name: ExpressionName,
    x: Box<Expression>,
    y: Box<Expression>,
    left: usize,
    right: usize,
    span: Span,
    p: spec_fn(ExpressionName) -> bool,
)
    ensures
        all_names(Expression { kind: ExpressionKind::Literal(value), span }, p),
        all_names(named(name, span), p) == p(name),
        all_names(Expression { kind: ExpressionKind::Unary(op, x), span }, p) == all_names(*x, p),
        all_names(Expression { kind: ExpressionKind::Binary(other, x, y), span }, p) == (all_names(
            *x,
            p,
        ) && all_names(*y, p)),
        all_names(Expression { kind: ExpressionKind::Slice(x, left, right), span }, p)
            == all_names(*x, p),
{
}

// ---- Names in the program ----

/// The current context is the latest one.
pub proof fn current_context_is_the_latest(st: State)
    requires
        st.labels.wf(),
    ensures
        current_context(st).index == st.labels.locals.len() - 1,
{
}

/// What a name in the program is worth. `pc` is the address; any other name is a label of that
/// name, a local one in the context that the expression stands in. A name that is no label is
/// unknown.
pub proof fn names_in_the_program(
    labels: Labels,
    ctx: LabelContext,
    pc: usize,
    text: String,
    span: Span,
)
    ensures
        ({
            let global = named(ExpressionName::GlobalVariable(text), span);
            let local = named(ExpressionName::LocalVariable(text), span);
            let known_global = labels.globals.dom().contains(text@);
            let known_local = ctx.index < labels.locals.len()
                && labels.locals[ctx.index as int].dom().contains(text@);
            &&& text@ == "pc"@ ==> expr_value(labels, global, ctx, pc) == Ok::<
                ExpressionValue,
                FailureView,
            >(place(pc))
            &&& text@ != "pc"@ ==> expr_value(labels, global, ctx, pc) == (if known_global {
                Ok(labels.globals[text@])
            } else {
                Err(says("unknown `"@ + text@ + "`"@, span))
            })
            &&& expr_value(labels, local, ctx, pc) == (if known_local {
                Ok(labels.locals[ctx.index as int][text@])
            } else {
                Err(says("unknown local `"@ + text@ + "`"@, span))
            })
            &&& expr_resolvable(labels, global, ctx) == (text@ == "pc"@ || known_global)
            &&& expr_resolvable(labels, local, ctx) == known_local
        }),
{
    address_becomes_a_value(pc);
}

/// An expression in the program is worth what it is made up of: its names are worth what they are
/// worth on their own, and it is known where all of them are.
pub proof fn expression_is_worth_its_names(
    labels: Labels,
    expr: Expression,
    ctx: LabelContext,
    pc: usize,
)
    ensures
        expr_value(labels, expr, ctx, pc) == resolved(
            expr,
            |name: ExpressionName, span: Span| expr_value(labels, named(name, span), ctx, pc),
        ),
        expr_resolvable(labels, expr, ctx) == all_names(
            expr,
            |name: ExpressionName|
                expr_resolvable(
                    labels,
                    named(name, Span { file: 0, start: 0, end: 0 }),
                    ctx,
                ),
        ),
{
    let all = |name: ExpressionName| true;
    lemma_all_names(expr, all);
    lemma_same_value(
        expr,
        all,
        label_env(labels, ctx, pc),
        |name: ExpressionName, span: Span| expr_value(labels, named(name, span), ctx, pc),
    );
    let alone = |name: ExpressionName|
        expr_resolvable(labels, named(name, Span { file: 0, start: 0, end: 0 }), ctx);
    let known = crate::model::known_names(labels, ctx);
    assert forall|name: ExpressionName| #[trigger] known(name) == alone(name) by {}
    if all_names(expr, known) {
        crate::expr::lemma_names_imply(expr, known, alone);
    }
    if all_names(expr, alone) {
        assert forall|name: ExpressionName| #[trigger] alone(name) implies known(name) by {
            assert(known(name) == alone(name));
        }
        crate::expr::lemma_names_imply(expr, alone, known);
    }
}

/// Where the program is now, an expression is worth what it is worth in the latest context and at
/// the current address.
pub proof fn expression_is_worth_something_here(st: State, expr: Expression)
    requires
        st.labels.wf(),
    ensures
        expr_value_here(st, expr) == expr_value(
            st.labels,
            expr,
            LabelContext { index: (st.labels.locals.len() - 1) as usize },
            st.cur_address,
        ),
{
}

/// The arguments of an instruction are known where each of them is.
pub proof fn instruction_is_known_by_its_arguments(labels: Labels, instr: InstructionView)
    ensures
        instruction_resolvable(labels, instr) <==> (forall|i: int|
            0 <= i < instr.arguments.len() ==> expr_resolvable(
                labels,
                #[trigger] instr.arguments[i],
                instr.label_ctx,
            )),
{
}

// ---- Constraints ----

/// The names in a constraint are worth what they should be: `_` the argument and `pc` the address.
pub open spec fn gives_constraint_names(
    env: spec_fn(ExpressionName, Span) -> Outcome<ExpressionValue>,
    argument: ExpressionValue,
    address: usize,
) -> bool {
    forall|text: String, span: Span|
        #![trigger env(ExpressionName::GlobalVariable(text), span)]
        {
            &&& text@ == "_"@ ==> env(ExpressionName::GlobalVariable(text), span) == Ok::<
                ExpressionValue,
                FailureView,
            >(argument)
            &&& text@ == "pc"@ ==> env(ExpressionName::GlobalVariable(text), span) == Ok::<
                ExpressionValue,
                FailureView,
            >(place(address))
        }
}

/// A constraint is checked by what it is worth where `_` is the argument and `pc` the address: it
/// has to be a truth value, and that one counts.
pub proof fn constraint_counts_for_what_it_is_worth(
    constraint: Expression,
    argument: ExpressionValue,
    address: usize,
    env: spec_fn(ExpressionName, Span) -> Outcome<ExpressionValue>,
)
    requires
        all_names(constraint, constraint_names()),
        gives_constraint_names(env, argument, address),
    ensures
        constraint_checked(constraint, argument, address) == (match resolved(constraint, env) {
            Ok(ExpressionValue::Boolean(holds)) => Ok(holds),
            Ok(ExpressionValue::Integer(_)) => Err(
                says("invalid constraint expression type"@, constraint.span),
            ),
            Err(failure) => Err(failure),
        }),
{
    reveal_strlit("_");
    reveal_strlit("pc");
    assert("_"@.len() != "pc"@.len());
    address_becomes_a_value(address);
    let own = constraint_env(argument, address);
    assert forall|name: ExpressionName, span: Span|
        constraint_names()(name) implies #[trigger] own(name, span) == env(name, span) by {
        match name {
            ExpressionName::GlobalVariable(text) => {
                assert(env(ExpressionName::GlobalVariable(text), span) is Ok);
            },
            ExpressionName::LocalVariable(_) => {},
        }
    }
    lemma_same_value(constraint, constraint_names(), own, env);
}

/// The names that a constraint may mention are `_` and `pc`.
pub proof fn constraints_mention_argument_and_address(text: String)
    ensures
        constraint_names()(ExpressionName::GlobalVariable(text)) <==> (text@ == "_"@ || text@
            == "pc"@),
        !constraint_names()(ExpressionName::LocalVariable(text)),
{
}

/// A constraint that compares the address with a literal is true exactly where the comparison holds
/// of the address that it is checked at; one that compares the argument with a literal, where it
/// holds of the argument.
pub proof fn constraint_compares_with_its_own_address(
    op: BinaryOp,
    text: String,
    literal: i64,
    argument: i64,
    address: usize,
    span: Span,
)
    requires
        address <= 0x7fff_ffff_ffff_ffff,
        text@ == "pc"@ || text@ == "_"@,
    ensures
        ({
            let constraint = Expression {
                kind: ExpressionKind::Binary(
                    op,
                    Box::new(named(ExpressionName::GlobalVariable(text), span)),
                    Box::new(
                        Expression { kind: ExpressionKind::Literal(number(literal as int)), span },
                    ),
                ),
                span,
            };
            let checked = constraint_checked(constraint, number(argument as int), address);
            let n = if text@ == "pc"@ {
                address as int
            } else {
                argument as int
            };
            match op {
                BinaryOp::Eq => checked == Ok::<bool, FailureView>(n == literal),
                BinaryOp::Neq => checked == Ok::<bool, FailureView>(n != literal),
                BinaryOp::Lt => checked == Ok::<bool, FailureView>(n < literal),
                BinaryOp::Lte => checked == Ok::<bool, FailureView>(n <= literal),
                BinaryOp::Gt => checked == Ok::<bool, FailureView>(n > literal),
                BinaryOp::Gte => checked == Ok::<bool, FailureView>(n >= literal),
                _ => !(checked is Ok),
            }
        }),
{
    reveal_strlit("_");
    reveal_strlit("pc");
    assert("_"@.len() != "pc"@.len());
    reveal_with_fuel(resolved, 3);
}

// ---- Arguments and productions ----

/// A parameter is found by its name, the first one of that name first.
pub proof fn parameter_is_found_by_name(rule: Rule, name: Seq<char>)
    ensures
        match rule.parameter_index(name, 0) {
            Some(k) => {
                &&& 0 <= k < rule.parameters@.len()
                &&& rule.parameters@[k].name@ == name
                &&& forall|j: int| 0 <= j < k ==> (#[trigger] rule.parameters@[j]).name@ != name
            },
            None => forall|j: int|
                0 <= j < rule.parameters@.len() ==> (#[trigger] rule.parameters@[j]).name@ != name,
        },
{
    lemma_parameter_is_found(rule, name, 0);
}

proof fn lemma_parameter_is_found(rule: Rule, name: Seq<char>, i: int)
    requires
        0 <= i,
    ensures
        match rule.parameter_index(name, i) {
            Some(k) => {
                &&& i <= k < rule.parameters@.len()
                &&& rule.parameters@[k].name@ == name
                &&& forall|j: int| i <= j < k ==> (#[trigger] rule.parameters@[j]).name@ != name
            },
            None => forall|j: int|
                i <= j < rule.parameters@.len() ==> (#[trigger] rule.parameters@[j]).name@ != name,
        },
    decreases rule.parameters@.len() - i,
{
    if i < rule.parameters@.len() {
        lemma_parameter_is_found(rule, name, i + 1);
    }
}

/// The arguments that a pattern takes are counted part by part.
pub proof fn arguments_are_counted(segments: Seq<PatternSegment>, count: int)
    requires
        0 <= count,
    ensures
        argument_count(segments, 0) == 0,
        argument_count(segments, count + 1) == argument_count(segments, count) + (
        match segments[count] {
            PatternSegment::Parameter(_) => 1int,
            PatternSegment::Exact(_) => 0int,
        }),
{
}

/// The argument for a parameter is worth what it is worth where the instruction stands, in the
/// instruction's context and at its address; it is refused where the constraint of the parameter is
/// not true of it there.
pub proof fn argument_is_worth_something_where_the_instruction_stands(
    labels: Labels,
    rule: Rule,
    instr: InstructionView,
    param: int,
)
    requires
        0 <= param < instr.arguments.len(),
        0 <= param < rule.parameters@.len(),
    ensures
        ({
            let argument = instr.arguments[param];
            let worth = expr_value(labels, argument, instr.label_ctx, instr.address);
            let result = argument_value(labels, rule, instr, param);
            &&& worth is Err ==> result == worth
            &&& worth is Ok && rule.parameters@[param].constraint is None ==> result == worth
            &&& worth is Ok ==> (rule.parameters@[param].constraint matches Some(constraint) ==> (
            match constraint_checked(constraint, worth->Ok_0, instr.address) {
                Ok(holds) => result == (if holds {
                    worth
                } else {
                    Err(says("parameter constraint not satisfied"@, argument.span))
                }),
                Err(failure) => result == Err::<ExpressionValue, FailureView>(failure),
            }))
        }),
{
}

/// The names in a production are worth what they should be: `pc` the address of the instruction,
/// and the name of a parameter the argument for it.
pub open spec fn gives_production_names(
    env: spec_fn(ExpressionName, Span) -> Outcome<ExpressionValue>,
    labels: Labels,
    rule: Rule,
    instr: InstructionView,
) -> bool {
    forall|text: String, span: Span|
        #![trigger env(ExpressionName::GlobalVariable(text), span)]
        {
            &&& text@ == "pc"@ ==> env(ExpressionName::GlobalVariable(text), span) == Ok::<
                ExpressionValue,
                FailureView,
            >(place(instr.address))
            &&& text@ != "pc"@ ==> forall|k: int|
                0 <= k < rule.parameters@.len() && (#[trigger] rule.parameters@[k]).name@ == text@
                    && (forall|j: int|
                    0 <= j < k ==> (#[trigger] rule.parameters@[j]).name@ != text@) ==> env(
                    ExpressionName::GlobalVariable(text),
                    span,
                ) == argument_value(labels, rule, instr, k)
        }
}

/// A piece of a production is worth what it is worth where `pc` is the address of the instruction
/// and the names of parameters are the arguments.
pub proof fn production_is_worth_its_arguments(
    labels: Labels,
    rule: Rule,
    instr: InstructionView,
    expr: Expression,
    env: spec_fn(ExpressionName, Span) -> Outcome<ExpressionValue>,
)
    requires
        all_names(expr, production_names(rule)),
        gives_production_names(env, labels, rule, instr),
    ensures
        production_value(labels, rule, instr, expr) == resolved(expr, env),
{
    address_becomes_a_value(instr.address);
    let own = production_env(labels, rule, instr);
    assert forall|name: ExpressionName, span: Span|
        production_names(rule)(name) implies #[trigger] own(name, span) == env(name, span) by {
        match name {
            ExpressionName::GlobalVariable(text) => {
                assert(env(ExpressionName::GlobalVariable(text), span)
                    == env(ExpressionName::GlobalVariable(text), span));
                if text@ != "pc"@ {
                    parameter_is_found_by_name(rule, text@);
                    let k = rule.parameter_index(text@, 0).unwrap();
                    assert(rule.parameters@[k].name@ == text@);
                }
            },
            ExpressionName::LocalVariable(_) => {},
        }
    }
    lemma_same_value(expr, production_names(rule), own, env);
}

/// The names that a production may mention are `pc`, and the parameters that the pattern takes an
/// argument for and whose constraint, if there is one, mentions only what it may mention.
pub proof fn productions_mention_address_and_parameters(rule: Rule, text: String, k: int)
    requires
        0 <= k < rule.parameters@.len(),
        rule.parameters@[k].name@ == text@,
        forall|j: int| 0 <= j < k ==> (#[trigger] rule.parameters@[j]).name@ != text@,
    ensures
        text@ == "pc"@ ==> production_names(rule)(ExpressionName::GlobalVariable(text)),
        text@ != "pc"@ ==> (production_names(rule)(ExpressionName::GlobalVariable(text)) <==> (k
            < argument_count(rule.pattern_segments@, rule.pattern_segments@.len() as int) && (
        rule.parameters@[k].constraint matches Some(constraint) ==> all_names(
            constraint,
            constraint_names(),
        )))),
        !production_names(rule)(ExpressionName::LocalVariable(text)),
{
    parameter_is_found_by_name(rule, text@);
}

} // verus!
