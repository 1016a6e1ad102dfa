//! Expressions: how they are made up, which names they mention, and what value they have.

use vstd::prelude::*;
use crate::error::{error_at, fail, outcome, Failure, FailureView, Outcome, Span};
use crate::integer::Integer;

verus! {

/// What an expression stands for.
#[derive(Clone, Copy, Debug, PartialEq, Eq, Structural)]
pub enum ExpressionValue {
    Integer(Integer),
    Boolean(bool),
}

/// A name in an expression.
#[derive(Debug)]
pub enum ExpressionName {
    GlobalVariable(String),
    LocalVariable(String),
}

/// An operator with one operand.
#[derive(Clone, Copy, Debug, PartialEq, Eq, Structural)]
pub enum UnaryOp {
    Neg,
    Not,
}

/// An operator with two operands.
#[derive(Clone, Copy, Debug, PartialEq, Eq, Structural)]
pub enum BinaryOp {
    Add,
    Sub,
    Mul,
    Shl,
    Shr,
    And,
    Or,
    Xor,
    Eq,
    Neq,
    Lt,
    Lte,
    Gt,
    Gte,
}

/// An expression and the place where it stands in the source.
#[derive(Debug)]
pub struct Expression {
    pub kind: ExpressionKind,
    pub span: Span,
}

/// How an expression is made up.
#[derive(Debug)]
pub enum ExpressionKind {
    Literal(ExpressionValue),
    Variable(ExpressionName),
    Unary(UnaryOp, Box<Expression>),
    Binary(BinaryOp, Box<Expression>, Box<Expression>),
    /// Bits of an integer, from the left one down to the right one.
    Slice(Box<Expression>, usize, usize),
}

/// An integer that expressions compute, where a machine integer can hold it.
pub open spec fn computed(value: int) -> Outcome<ExpressionValue> {
    if i64::MIN <= value <= i64::MAX {
        Ok(ExpressionValue::Integer(Integer::plain(value as i64)))
    } else {
        Err(FailureView::Overflow)
    }
}

/// The failure of an operator whose operands it is not made for.
pub open spec fn bad_operand(span: Span) -> FailureView {
    error_at("invalid operand type"@, span)
}

/// What a unary operator at `span` gives for an operand.
pub open spec fn applied_unary(op: UnaryOp, x: ExpressionValue, span: Span) -> Outcome<
    ExpressionValue,
> {
    match (op, x) {
        (UnaryOp::Neg, ExpressionValue::Integer(a)) => computed(-a.value),
        (UnaryOp::Not, ExpressionValue::Integer(a)) => computed(!a.value as int),
        (UnaryOp::Not, ExpressionValue::Boolean(a)) => Ok(ExpressionValue::Boolean(!a)),
        _ => Err(bad_operand(span)),
    }
}

/// What a binary operator gives for two integers.
pub open spec fn applied_to_integers(op: BinaryOp, a: i64, b: i64) -> Outcome<ExpressionValue> {
    match op {
        BinaryOp::Add => computed(a + b),
        BinaryOp::Sub => computed(a - b),
        BinaryOp::Mul => computed(a * b),
        BinaryOp::Shl => if 0 <= b < 64 {
            computed((a << b) as int)
        } else {
            Err(FailureView::Overflow)
        },
        BinaryOp::Shr => if 0 <= b < 64 {
            computed((a >> b) as int)
        } else {
            Err(FailureView::Overflow)
        },
        BinaryOp::And => computed((a & b) as int),
        BinaryOp::Or => computed((a | b) as int),
        BinaryOp::Xor => computed((a ^ b) as int),
        BinaryOp::Eq => Ok(ExpressionValue::Boolean(a == b)),
        BinaryOp::Neq => Ok(ExpressionValue::Boolean(a != b)),
        BinaryOp::Lt => Ok(ExpressionValue::Boolean(a < b)),
        BinaryOp::Lte => Ok(ExpressionValue::Boolean(a <= b)),
        BinaryOp::Gt => Ok(ExpressionValue::Boolean(a > b)),
        BinaryOp::Gte => Ok(ExpressionValue::Boolean(a >= b)),
    }
}

/// What a binary operator at `span` gives for two truth values.
pub open spec fn applied_to_booleans(op: BinaryOp, a: bool, b: bool, span: Span) -> Outcome<
    ExpressionValue,
> {
    match op {
        BinaryOp::And => Ok(ExpressionValue::Boolean(a && b)),
        BinaryOp::Or => Ok(ExpressionValue::Boolean(a || b)),
        BinaryOp::Xor => Ok(ExpressionValue::Boolean(a != b)),
        BinaryOp::Eq => Ok(ExpressionValue::Boolean(a == b)),
        BinaryOp::Neq => Ok(ExpressionValue::Boolean(a != b)),
        _ => Err(bad_operand(span)),
    }
}

/// What a binary operator at `span` gives for two operands.
pub open spec fn applied_binary(
    op: BinaryOp,
    x: ExpressionValue,
    y: ExpressionValue,
    span: Span,
) -> Outcome<ExpressionValue> {
    match (x, y) {
        (ExpressionValue::Integer(a), ExpressionValue::Integer(b)) => applied_to_integers(
            op,
            a.value,
            b.value,
        ),
        (ExpressionValue::Boolean(a), ExpressionValue::Boolean(b)) => applied_to_booleans(
            op,
            a,
            b,
            span,
        ),
        _ => Err(bad_operand(span)),
    }
}

/// What a slice at `span` gives for an operand.
pub open spec fn applied_slice(x: ExpressionValue, left: usize, right: usize, span: Span) -> Outcome<
    ExpressionValue,
> {
    match x {
        ExpressionValue::Integer(a) => if right <= left && left - right < usize::MAX {
            Ok(ExpressionValue::Integer(a.sliced(left, right)))
        } else {
            Err(FailureView::Overflow)
        },
        _ => Err(bad_operand(span)),
    }
}

/// The value of an expression whose names have the values that `env` gives them. The first
/// failure, from left to right and from the operands to their operator, is the outcome.
pub open spec fn resolved(
    e: Expression,
    env: spec_fn(ExpressionName, Span) -> Outcome<ExpressionValue>,
) -> Outcome<ExpressionValue>
    decreases e,
{
    match e.kind {
        ExpressionKind::Literal(value) => Ok(value),
        ExpressionKind::Variable(name) => env(name, e.span),
        ExpressionKind::Unary(op, x) => match resolved(*x, env) {
            Ok(value) => applied_unary(op, value, e.span),
            Err(failure) => Err(failure),
        },
        ExpressionKind::Binary(op, x, y) => match resolved(*x, env) {
            Ok(a) => match resolved(*y, env) {
                Ok(b) => applied_binary(op, a, b, e.span),
                Err(failure) => Err(failure),
            },
            Err(failure) => Err(failure),
        },
        ExpressionKind::Slice(x, left, right) => match resolved(*x, env) {
            Ok(value) => applied_slice(value, left, right, e.span),
            Err(failure) => Err(failure),
        },
    }
}

/// Whether every name in an expression satisfies `p`.
pub open spec fn all_names(e: Expression, p: spec_fn(ExpressionName) -> bool) -> bool
    decreases e,
{
    match e.kind {
        ExpressionKind::Literal(_) => true,
        ExpressionKind::Variable(name) => p(name),
        ExpressionKind::Unary(_, x) => all_names(*x, p),
        ExpressionKind::Binary(_, x, y) => all_names(*x, p) && all_names(*y, p),
        ExpressionKind::Slice(x, _, _) => all_names(*x, p),
    }
}

/// What is true of all names is true of the names in an expression.
pub proof fn lemma_all_names(e: Expression, p: spec_fn(ExpressionName) -> bool)
    requires
        forall|name: ExpressionName| #[trigger] p(name),
    ensures
        all_names(e, p),
    decreases e,
{
    match e.kind {
        ExpressionKind::Unary(_, x) => {
            lemma_all_names(*x, p);
        },
        ExpressionKind::Binary(_, x, y) => {
            lemma_all_names(*x, p);
            lemma_all_names(*y, p);
        },
        ExpressionKind::Slice(x, _, _) => {
            lemma_all_names(*x, p);
        },
        _ => {},
    }
}

/// Where the names in an expression satisfy `p`, they satisfy whatever follows from `p`.
pub proof fn lemma_names_imply(
    e: Expression,
    p: spec_fn(ExpressionName) -> bool,
    q: spec_fn(ExpressionName) -> bool,
)
    requires
        all_names(e, p),
        forall|name: ExpressionName| #[trigger] p(name) ==> q(name),
    ensures
        all_names(e, q),
    decreases e,
{
    match e.kind {
        ExpressionKind::Unary(_, x) => {
            lemma_names_imply(*x, p, q);
        },
        ExpressionKind::Binary(_, x, y) => {
            lemma_names_imply(*x, p, q);
            lemma_names_imply(*y, p, q);
        },
        ExpressionKind::Slice(x, _, _) => {
            lemma_names_imply(*x, p, q);
        },
        _ => {},
    }
}

/// The value of an expression depends on the values of the names in it and on nothing else.
pub proof fn lemma_same_value(
    e: Expression,
    p: spec_fn(ExpressionName) -> bool,
    env1: spec_fn(ExpressionName, Span) -> Outcome<ExpressionValue>,
    env2: spec_fn(ExpressionName, Span) -> Outcome<ExpressionValue>,
)
    requires
        all_names(e, p),
        forall|name: ExpressionName, span: Span|
            p(name) ==> #[trigger] env1(name, span) == env2(name, span),
    ensures
        resolved(e, env1) == resolved(e, env2),
    decreases e,
{
    match e.kind {
        ExpressionKind::Unary(_, x) => {
            lemma_same_value(*x, p, env1, env2);
        },
        ExpressionKind::Binary(_, x, y) => {
            lemma_same_value(*x, p, env1, env2);
            lemma_same_value(*y, p, env1, env2);
        },
        ExpressionKind::Slice(x, _, _) => {
            lemma_same_value(*x, p, env1, env2);
        },
        _ => {},
    }
}

/// Where expressions get the values of their names from.
pub trait Scope {
    /// The names that the scope can be asked for.
    spec fn admits(&self) -> spec_fn(ExpressionName) -> bool;

    /// The value of a name that stands at a place.
    spec fn env(&self) -> spec_fn(ExpressionName, Span) -> Outcome<ExpressionValue>;

    /// The value of a name that stands at a place.
    fn lookup(&self, name: &ExpressionName, span: Span) -> (r: Result<ExpressionValue, Failure>)
        requires
            (self.admits())(*name),
        ensures
            outcome(r) == (self.env())(*name, span),
    ;
}

/// Which names have a value by now.
pub trait KnownNames {
    /// The names that have a value.
    spec fn known(&self) -> spec_fn(ExpressionName) -> bool;

    /// Whether a name has a value.
    fn is_known(&self, name: &ExpressionName) -> (r: bool)
        ensures
            r == (self.known())(*name),
    ;
}

impl ExpressionName {
    /// The same name once more.
    pub fn copy(&self) -> (r: ExpressionName)
        ensures
            r == *self,
    {
        match self {
            ExpressionName::GlobalVariable(name) => ExpressionName::GlobalVariable(name.clone()),
            ExpressionName::LocalVariable(name) => ExpressionName::LocalVariable(name.clone()),
        }
    }
}

fn compute(value: Option<i64>) -> (r: Result<ExpressionValue, Failure>)
    ensures
        outcome(r) == (match value {
            Some(v) => computed(v as int),
            None => Err(FailureView::Overflow),
        }),
{
    match value {
        Some(value) => Ok(ExpressionValue::Integer(Integer::new(value))),
        None => Err(Failure::Overflow),
    }
}

fn apply_unary(op: UnaryOp, x: ExpressionValue, span: Span) -> (r: Result<ExpressionValue, Failure>)
    ensures
        outcome(r) == applied_unary(op, x, span),
{
    match (op, x) {
        (UnaryOp::Neg, ExpressionValue::Integer(a)) => compute(0i64.checked_sub(a.value)),
        (UnaryOp::Not, ExpressionValue::Integer(a)) => compute(Some(!a.value)),
        (UnaryOp::Not, ExpressionValue::Boolean(a)) => Ok(ExpressionValue::Boolean(!a)),
        _ => Err(fail("invalid operand type", span)),
    }
}

fn apply_to_integers(op: BinaryOp, a: i64, b: i64) -> (r: Result<ExpressionValue, Failure>)
    ensures
        outcome(r) == applied_to_integers(op, a, b),
{
    match op {
        BinaryOp::Add => compute(a.checked_add(b)),
        BinaryOp::Sub => compute(a.checked_sub(b)),
        BinaryOp::Mul => compute(a.checked_mul(b)),
        BinaryOp::Shl => if 0 <= b && b < 64 {
            compute(Some(a << b))
        } else {
            Err(Failure::Overflow)
        },
        BinaryOp::Shr => if 0 <= b && b < 64 {
            compute(Some(a >> b))
        } else {
            Err(Failure::Overflow)
        },
        BinaryOp::And => compute(Some(a & b)),
        BinaryOp::Or => compute(Some(a | b)),
        BinaryOp::Xor => compute(Some(a ^ b)),
        BinaryOp::Eq => Ok(ExpressionValue::Boolean(a == b)),
        BinaryOp::Neq => Ok(ExpressionValue::Boolean(a != b)),
        BinaryOp::Lt => Ok(ExpressionValue::Boolean(a < b)),
        BinaryOp::Lte => Ok(ExpressionValue::Boolean(a <= b)),
        BinaryOp::Gt => Ok(ExpressionValue::Boolean(a > b)),
        BinaryOp::Gte => Ok(ExpressionValue::Boolean(a >= b)),
    }
}

fn apply_to_booleans(op: BinaryOp, a: bool, b: bool, span: Span) -> (r: Result<
    ExpressionValue,
    Failure,
>)
    ensures
        outcome(r) == applied_to_booleans(op, a, b, span),
{
    match op {
        BinaryOp::And => Ok(ExpressionValue::Boolean(a && b)),
        BinaryOp::Or => Ok(ExpressionValue::Boolean(a || b)),
        BinaryOp::Xor => Ok(ExpressionValue::Boolean(a != b)),
        BinaryOp::Eq => Ok(ExpressionValue::Boolean(a == b)),
        BinaryOp::Neq => Ok(ExpressionValue::Boolean(a != b)),
        _ => Err(fail("invalid operand type", span)),
    }
}

fn apply_binary(op: BinaryOp, x: ExpressionValue, y: ExpressionValue, span: Span) -> (r: Result<
    ExpressionValue,
    Failure,
>)
    ensures
        outcome(r) == applied_binary(op, x, y, span),
{
    match (x, y) {
        (ExpressionValue::Integer(a), ExpressionValue::Integer(b)) => apply_to_integers(
            op,
            a.value,
            b.value,
        ),
        (ExpressionValue::Boolean(a), ExpressionValue::Boolean(b)) => apply_to_booleans(
            op,
            a,
            b,
            span,
        ),
        _ => Err(fail("invalid operand type", span)),
    }
}

fn apply_slice(x: ExpressionValue, left: usize, right: usize, span: Span) -> (r: Result<
    ExpressionValue,
    Failure,
>)
    ensures
        outcome(r) == applied_slice(x, left, right, span),
{
    match x {
        ExpressionValue::Integer(a) => if right <= left && left - right < usize::MAX {
            Ok(ExpressionValue::Integer(a.slice(left, right)))
        } else {
            Err(Failure::Overflow)
        },
        _ => Err(fail("invalid operand type", span)),
    }
}

impl Expression {
    /// The same expression once more.
    pub fn copy(&self) -> (r: Expression)
        ensures
            r == *self,
        decreases self,
    {
        let kind = match &self.kind {
            ExpressionKind::Literal(value) => ExpressionKind::Literal(*value),
            ExpressionKind::Variable(name) => ExpressionKind::Variable(name.copy()),
            ExpressionKind::Unary(op, x) => ExpressionKind::Unary(*op, Box::new(x.copy())),
            ExpressionKind::Binary(op, x, y) => ExpressionKind::Binary(
                *op,
                Box::new(x.copy()),
                Box::new(y.copy()),
            ),
            ExpressionKind::Slice(x, left, right) => ExpressionKind::Slice(
                Box::new(x.copy()),
                *left,
                *right,
            ),
        };
        Expression { kind, span: self.span }
    }

    /// Whether every name in the expression has a value by now.
    pub fn can_resolve<K: KnownNames>(&self, names: &K) -> (r: bool)
        ensures
            r == all_names(*self, names.known()),
        decreases self,
    {
        match &self.kind {
            ExpressionKind::Literal(_) => true,
            ExpressionKind::Variable(name) => names.is_known(name),
            ExpressionKind::Unary(_, x) => x.can_resolve(names),
            ExpressionKind::Binary(_, x, y) => x.can_resolve(names) && y.can_resolve(names),
            ExpressionKind::Slice(x, _, _) => x.can_resolve(names),
        }
    }

    /// The value of the expression, its names looked up in a scope.
    pub fn resolve<S: Scope>(&self, scope: &S) -> (r: Result<ExpressionValue, Failure>)
        requires
            all_names(*self, scope.admits()),
        ensures
            outcome(r) == resolved(*self, scope.env()),
        decreases self,
    {
        match &self.kind {
            ExpressionKind::Literal(value) => Ok(*value),
            ExpressionKind::Variable(name) => scope.lookup(name, self.span),
            ExpressionKind::Unary(op, x) => match x.resolve(scope) {
                Ok(value) => apply_unary(*op, value, self.span),
                Err(failure) => Err(failure),
            },
            ExpressionKind::Binary(op, x, y) => match x.resolve(scope) {
                Ok(a) => match y.resolve(scope) {
                    Ok(b) => apply_binary(*op, a, b, self.span),
                    Err(failure) => Err(failure),
                },
                Err(failure) => Err(failure),
            },
            ExpressionKind::Slice(x, left, right) => match x.resolve(scope) {
                Ok(value) => apply_slice(value, *left, *right, self.span),
                Err(failure) => Err(failure),
            },
        }
    }
}

} // verus!
