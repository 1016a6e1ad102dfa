//! Places in the source do not matter: two programs that differ in the spans of their tokens and
//! expressions only stand for the same bits, or fail with the same message.

use vstd::prelude::*;
use crate::assembler::{instruction_wf, instructions_wf, UnresolvedExpression};
use crate::definition::Definition;
use crate::error::{FailureView, Outcome, Span};
use crate::expr::{
    all_names,
    lemma_all_names,
    resolved,
    Expression,
    ExpressionKind,
    ExpressionName,
    ExpressionValue,
};
use crate::label::{LabelContext, Labels};
use crate::laws::files::lacks_files;
use crate::laws::labels::lemma_parameter_index;
use crate::laws::lines::{
    lemma_after_linebreaks,
    lemma_asking_directive,
    lemma_found,
    line_keeps_state,
    pieces_change_output_only,
};
use crate::laws::rules::selected_instruction_is_complete;
use crate::model::{
    advanced,
    argument_accepted,
    assembled,
    completed,
    constant_parsed,
    current_context,
    data_directive_width,
    data_parsed,
    directive_name_read,
    directive_parsed,
    expr_resolvable,
    expr_value,
    expression_completed,
    expression_output,
    expressions_completed,
    first_pass,
    global_label_parsed,
    initial_state,
    instruction_output,
    instruction_parsed,
    instruction_resolvable,
    instruction_resolved,
    instructions_completed,
    known_names,
    label_env,
    line_finished,
    line_parsed,
    lines_parsed,
    local_label_parsed,
    number_read,
    pieces_written,
    production_env,
    production_value,
    reserved,
    rule_matched,
    rule_selected,
    segments_matched,
    written_at,
    InstructionView,
    Reached,
    State,
    Step,
};
use crate::parser::{expression_read, file_start, line_end_read, string_read};
use crate::rule::{production_names, PatternSegment, Rule};
use crate::source::{IncludedFiles, ParsedExpression, Source};
use crate::token::{Token, TokenKind};

verus! {

// ---- What is the same up to spans ----

/// Two names that are written alike.
pub open spec fn same_name(a: ExpressionName, b: ExpressionName) -> bool {
    match (a, b) {
        (ExpressionName::GlobalVariable(x), ExpressionName::GlobalVariable(y)) => x@ == y@,
        (ExpressionName::LocalVariable(x), ExpressionName::LocalVariable(y)) => x@ == y@,
        _ => false,
    }
}

/// Two expressions that differ in spans only.
pub open spec fn same_expression(a: Expression, b: Expression) -> bool
    decreases a,
{
    match (a.kind, b.kind) {
        (ExpressionKind::Literal(x), ExpressionKind::Literal(y)) => x == y,
        (ExpressionKind::Variable(x), ExpressionKind::Variable(y)) => same_name(x, y),
        (ExpressionKind::Unary(f, x), ExpressionKind::Unary(g, y)) => f == g && same_expression(
            *x,
            *y,
        ),
        (ExpressionKind::Binary(f, x, u), ExpressionKind::Binary(g, y, v)) => f == g
            && same_expression(*x, *y) && same_expression(*u, *v),
        (ExpressionKind::Slice(x, l, r), ExpressionKind::Slice(y, m, s)) => same_expression(
            *x,
            *y,
        ) && l == m && r == s,
        _ => false,
    }
}

/// Two tokens that differ in spans only.
pub open spec fn same_token(a: Token, b: Token) -> bool {
    match (a.kind, b.kind) {
        (TokenKind::Identifier(x), TokenKind::Identifier(y)) => x@ == y@,
        (TokenKind::Operator(x), TokenKind::Operator(y)) => x@ == y@,
        (TokenKind::Text(x), TokenKind::Text(y)) => x@ == y@,
        (TokenKind::Number(x), TokenKind::Number(y)) => x@ == y@,
        (TokenKind::LineBreak, TokenKind::LineBreak) => true,
        (TokenKind::End, TokenKind::End) => true,
        _ => false,
    }
}

/// Two answers about the expression at a position that differ in spans only.
pub open spec fn same_parsed(a: ParsedExpression, b: ParsedExpression) -> bool {
    match (a, b) {
        (
            ParsedExpression::Parsed { expr: x, length: m },
            ParsedExpression::Parsed { expr: y, length: n },
        ) => same_expression(x, y) && m == n,
        (ParsedExpression::Failed(x), ParsedExpression::Failed(y)) => x.message@ == y.message@,
        _ => false,
    }
}

/// Two texts that differ in spans only.
pub open spec fn same_text(x: Source, y: Source) -> bool {
    &&& x.tokens@.len() == y.tokens@.len()
    &&& same_token(x.end, y.end)
    &&& x.expressions@.len() == y.expressions@.len()
    &&& forall|i: int|
        0 <= i < x.tokens@.len() ==> same_token(#[trigger] x.tokens@[i], y.tokens@[i])
    &&& forall|i: int|
        0 <= i < x.expressions@.len() ==> same_parsed(
            #[trigger] x.expressions@[i],
            y.expressions@[i],
        )
}

/// Two files of the same name whose texts differ in spans only.
pub open spec fn same_up_to_spans(x: Source, y: Source) -> bool {
    x.filename@ == y.filename@ && same_text(x, y)
}

/// What is found under two names differs in spans only. If `more`, there may be a file under the
/// second name that is missing under the first one.
pub open spec fn found_alike(
    a: IncludedFiles,
    b: IncludedFiles,
    from: Seq<char>,
    other: Seq<char>,
    more: bool,
) -> bool {
    forall|name: Seq<char>|
        #![trigger a.found(from, name, 0)]
        #![trigger b.found(other, name, 0)]
        match (a.found(from, name, 0), b.found(other, name, 0)) {
            (Some(x), Some(y)) => same_up_to_spans(x, y),
            (Some(_), None) => false,
            (None, Some(_)) => more,
            (None, None) => true,
        }
}

/// All files that may be asked for differ in spans only. If `more`, the second ones may be more.
pub open spec fn files_alike(a: IncludedFiles, b: IncludedFiles, more: bool) -> bool {
    forall|from: Seq<char>| #[trigger] asked_alike(a, b, from, more)
}

/// The files that may be asked for from a file differ in spans only.
pub open spec fn asked_alike(a: IncludedFiles, b: IncludedFiles, from: Seq<char>, more: bool) -> bool {
    found_alike(a, b, from, from, more)
}

/// Two failures that differ in spans only.
pub open spec fn same_failure(f: FailureView, g: FailureView) -> bool {
    match (f, g) {
        (FailureView::Error(x), FailureView::Error(y)) => x.message == y.message,
        (FailureView::Error(_), _) => false,
        (_, FailureView::Error(_)) => false,
        _ => f == g,
    }
}

/// The same result, or two failures that differ in spans only.
pub open spec fn same_outcome<T>(a: Outcome<T>, b: Outcome<T>) -> bool {
    match (a, b) {
        (Ok(x), Ok(y)) => x == y,
        (Err(f), Err(g)) => same_failure(f, g),
        _ => false,
    }
}

/// Two data expressions that differ in spans only.
pub open spec fn same_data(a: UnresolvedExpression, b: UnresolvedExpression) -> bool {
    &&& same_expression(a.expr, b.expr)
    &&& a.label_ctx == b.label_ctx
    &&& a.address == b.address
    &&& a.output == b.output
    &&& a.data_width == b.data_width
}

/// Two rows of expressions that differ in spans only.
pub open spec fn same_expressions(a: Seq<Expression>, b: Seq<Expression>) -> bool {
    &&& a.len() == b.len()
    &&& forall|i: int|
        #![trigger a[i]]
        #![trigger b[i]]
        0 <= i < a.len() ==> same_expression(a[i], b[i])
}

/// Two instructions that differ in spans only.
pub open spec fn same_instruction(a: InstructionView, b: InstructionView) -> bool {
    &&& a.rule_index == b.rule_index
    &&& a.label_ctx == b.label_ctx
    &&& a.address == b.address
    &&& a.output == b.output
    &&& same_expressions(a.arguments, b.arguments)
}

/// Two states that differ in spans only.
pub open spec fn same_state(a: State, b: State) -> bool {
    &&& a.cur_address == b.cur_address
    &&& a.cur_output == b.cur_output
    &&& a.labels == b.labels
    &&& a.output_bits == b.output_bits
    &&& a.unresolved_instructions.len() == b.unresolved_instructions.len()
    &&& a.unresolved_expressions.len() == b.unresolved_expressions.len()
    &&& forall|i: int|
        #![trigger a.unresolved_instructions[i]]
        #![trigger b.unresolved_instructions[i]]
        0 <= i < a.unresolved_instructions.len() ==> same_instruction(
            a.unresolved_instructions[i],
            b.unresolved_instructions[i],
        )
    &&& forall|i: int|
        #![trigger a.unresolved_expressions[i]]
        #![trigger b.unresolved_expressions[i]]
        0 <= i < a.unresolved_expressions.len() ==> same_data(
            a.unresolved_expressions[i],
            b.unresolved_expressions[i],
        )
}

/// Two steps that differ in spans only.
pub open spec fn same_step(a: Step, b: Step) -> bool {
    same_state(a.0, b.0) && same_outcome(a.1, b.1)
}

proof fn lemma_same_expression_reflexive(e: Expression)
    ensures
        same_expression(e, e),
    decreases e,
{
    match e.kind {
        ExpressionKind::Unary(_, x) => {
            lemma_same_expression_reflexive(*x);
        },
        ExpressionKind::Binary(_, x, y) => {
            lemma_same_expression_reflexive(*x);
            lemma_same_expression_reflexive(*y);
        },
        ExpressionKind::Slice(x, _, _) => {
            lemma_same_expression_reflexive(*x);
        },
        _ => {},
    }
}

/// A state differs from itself in nothing.
pub proof fn same_state_is_reflexive(st: State)
    ensures
        same_state(st, st),
{
    assert forall|i: int| 0 <= i < st.unresolved_instructions.len() implies same_instruction(
        #[trigger] st.unresolved_instructions[i],
        st.unresolved_instructions[i],
    ) by {
        let arguments = st.unresolved_instructions[i].arguments;
        assert forall|k: int| 0 <= k < arguments.len() implies same_expression(
            #[trigger] arguments[k],
            arguments[k],
        ) by {
            lemma_same_expression_reflexive(arguments[k]);
        }
    }
    assert forall|i: int| 0 <= i < st.unresolved_expressions.len() implies same_data(
        #[trigger] st.unresolved_expressions[i],
        st.unresolved_expressions[i],
    ) by {
        lemma_same_expression_reflexive(st.unresolved_expressions[i].expr);
    }
}

/// A file differs from itself in nothing.
pub proof fn source_is_like_itself(source: Source)
    ensures
        same_up_to_spans(source, source),
{
    assert forall|i: int| 0 <= i < source.expressions@.len() implies same_parsed(
        #[trigger] source.expressions@[i],
        source.expressions@[i],
    ) by {
        match source.expressions@[i] {
            ParsedExpression::Parsed { expr, .. } => {
                lemma_same_expression_reflexive(expr);
            },
            ParsedExpression::Failed(_) => {},
        }
    }
}

proof fn lemma_same_expression_transitive(a: Expression, b: Expression, c: Expression)
    requires
        same_expression(a, b),
        same_expression(b, c),
    ensures
        same_expression(a, c),
    decreases a,
{
    match (a.kind, b.kind, c.kind) {
        (
            ExpressionKind::Unary(_, x),
            ExpressionKind::Unary(_, y),
            ExpressionKind::Unary(_, z),
        ) => {
            lemma_same_expression_transitive(*x, *y, *z);
        },
        (
            ExpressionKind::Binary(_, x, u),
            ExpressionKind::Binary(_, y, v),
            ExpressionKind::Binary(_, z, w),
        ) => {
            lemma_same_expression_transitive(*x, *y, *z);
            lemma_same_expression_transitive(*u, *v, *w);
        },
        (
            ExpressionKind::Slice(x, _, _),
            ExpressionKind::Slice(y, _, _),
            ExpressionKind::Slice(z, _, _),
        ) => {
            lemma_same_expression_transitive(*x, *y, *z);
        },
        _ => {},
    }
}

/// Two states that differ from a third one in spans only differ from one another in spans only.
pub proof fn same_state_is_transitive(a: State, b: State, c: State)
    requires
        same_state(a, b),
        same_state(b, c),
    ensures
        same_state(a, c),
{
    assert forall|i: int| 0 <= i < a.unresolved_instructions.len() implies same_instruction(
        #[trigger] a.unresolved_instructions[i],
        c.unresolved_instructions[i],
    ) by {
        let x = a.unresolved_instructions[i];
        let y = b.unresolved_instructions[i];
        let z = c.unresolved_instructions[i];
        assert forall|k: int| 0 <= k < x.arguments.len() implies same_expression(
            #[trigger] x.arguments[k],
            z.arguments[k],
        ) by {
            lemma_same_expression_transitive(x.arguments[k], y.arguments[k], z.arguments[k]);
        }
    }
    assert forall|i: int| 0 <= i < a.unresolved_expressions.len() implies same_data(
        #[trigger] a.unresolved_expressions[i],
        c.unresolved_expressions[i],
    ) by {
        lemma_same_expression_transitive(
            a.unresolved_expressions[i].expr,
            b.unresolved_expressions[i].expr,
            c.unresolved_expressions[i].expr,
        );
    }
}

// ---- Values ----

proof fn lemma_names_alike(
    a: Expression,
    b: Expression,
    p: spec_fn(ExpressionName) -> bool,
    q: spec_fn(ExpressionName) -> bool,
)
    requires
        same_expression(a, b),
        forall|m: ExpressionName, n: ExpressionName|
            same_name(m, n) ==> #[trigger] p(m) == #[trigger] q(n),
    ensures
        all_names(a, p) == all_names(b, q),
    decreases a,
{
    match (a.kind, b.kind) {
        (ExpressionKind::Unary(_, x), ExpressionKind::Unary(_, y)) => {
            lemma_names_alike(*x, *y, p, q);
        },
        (ExpressionKind::Binary(_, x, u), ExpressionKind::Binary(_, y, v)) => {
            lemma_names_alike(*x, *y, p, q);
            lemma_names_alike(*u, *v, p, q);
        },
        (ExpressionKind::Slice(x, _, _), ExpressionKind::Slice(y, _, _)) => {
            lemma_names_alike(*x, *y, p, q);
        },
        _ => {},
    }
}

proof fn lemma_resolved_alike(
    a: Expression,
    b: Expression,
    p: spec_fn(ExpressionName) -> bool,
    env1: spec_fn(ExpressionName, Span) -> Outcome<ExpressionValue>,
    env2: spec_fn(ExpressionName, Span) -> Outcome<ExpressionValue>,
)
    requires
        same_expression(a, b),
        all_names(a, p),
        forall|m: ExpressionName, n: ExpressionName, s: Span, t: Span|
            p(m) && same_name(m, n) ==> same_outcome(#[trigger] env1(m, s), #[trigger] env2(n, t)),
    ensures
        same_outcome(resolved(a, env1), resolved(b, env2)),
    decreases a,
{
    match (a.kind, b.kind) {
        (ExpressionKind::Unary(_, x), ExpressionKind::Unary(_, y)) => {
            lemma_resolved_alike(*x, *y, p, env1, env2);
        },
        (ExpressionKind::Binary(_, x, u), ExpressionKind::Binary(_, y, v)) => {
            lemma_resolved_alike(*x, *y, p, env1, env2);
            lemma_resolved_alike(*u, *v, p, env1, env2);
        },
        (ExpressionKind::Slice(x, _, _), ExpressionKind::Slice(y, _, _)) => {
            lemma_resolved_alike(*x, *y, p, env1, env2);
        },
        _ => {},
    }
}

proof fn lemma_value_alike(
    labels: Labels,
    a: Expression,
    b: Expression,
    ctx: LabelContext,
    pc: usize,
)
    requires
        same_expression(a, b),
    ensures
        expr_resolvable(labels, a, ctx) == expr_resolvable(labels, b, ctx),
        same_outcome(expr_value(labels, a, ctx, pc), expr_value(labels, b, ctx, pc)),
{
    let all = |name: ExpressionName| true;
    lemma_all_names(a, all);
    lemma_names_alike(a, b, known_names(labels, ctx), known_names(labels, ctx));
    lemma_resolved_alike(a, b, all, label_env(labels, ctx, pc), label_env(labels, ctx, pc));
}

proof fn lemma_production_alike(
    labels: Labels,
    rule: Rule,
    a: InstructionView,
    b: InstructionView,
    expr: Expression,
)
    requires
        same_instruction(a, b),
        rule.taken_arguments() <= a.arguments.len(),
        all_names(expr, production_names(rule)),
    ensures
        same_outcome(
            production_value(labels, rule, a, expr),
            production_value(labels, rule, b, expr),
        ),
{
    lemma_same_expression_reflexive(expr);
    let env1 = production_env(labels, rule, a);
    let env2 = production_env(labels, rule, b);
    assert forall|m: ExpressionName, n: ExpressionName, s: Span, t: Span|
        production_names(rule)(m) && same_name(m, n) implies same_outcome(
        #[trigger] env1(m, s),
        #[trigger] env2(n, t),
    ) by {
        match m {
            ExpressionName::GlobalVariable(name) => {
                if name@ != "pc"@ {
                    lemma_parameter_index(rule, name@, 0);
                    let param = rule.parameter_index(name@, 0).unwrap();
                    lemma_value_alike(
                        labels,
                        a.arguments[param],
                        b.arguments[param],
                        a.label_ctx,
                        a.address,
                    );
                }
            },
            ExpressionName::LocalVariable(_) => {},
        }
    }
    lemma_resolved_alike(expr, expr, production_names(rule), env1, env2);
}

proof fn lemma_instruction_resolvable_alike(labels: Labels, a: InstructionView, b: InstructionView)
    requires
        same_instruction(a, b),
    ensures
        instruction_resolvable(labels, a) == instruction_resolvable(labels, b),
{
    assert forall|i: int| 0 <= i < a.arguments.len() implies expr_resolvable(
        labels,
        #[trigger] a.arguments[i],
        a.label_ctx,
    ) == expr_resolvable(labels, b.arguments[i], b.label_ctx) by {
        lemma_value_alike(labels, a.arguments[i], b.arguments[i], a.label_ctx, a.address);
    }
    if instruction_resolvable(labels, a) {
        assert forall|i: int| 0 <= i < b.arguments.len() implies expr_resolvable(
            labels,
            #[trigger] b.arguments[i],
            b.label_ctx,
        ) by {
            assert(expr_resolvable(labels, a.arguments[i], a.label_ctx));
        }
    }
    if instruction_resolvable(labels, b) {
        assert forall|i: int| 0 <= i < a.arguments.len() implies expr_resolvable(
            labels,
            #[trigger] a.arguments[i],
            a.label_ctx,
        ) by {
            assert(expr_resolvable(labels, b.arguments[i], b.label_ctx));
        }
    }
}

// ---- Output ----

proof fn lemma_expression_output_alike(
    def: Definition,
    s: State,
    t: State,
    a: Expression,
    b: Expression,
    data_width: usize,
)
    requires
        same_state(s, t),
        same_expression(a, b),
    ensures
        same_step(
            expression_output(def, s, a, data_width),
            expression_output(def, t, b, data_width),
        ),
        expression_output(def, s, a, data_width).0.unresolved_instructions
            == s.unresolved_instructions,
{
    lemma_value_alike(s.labels, a, b, current_context(s), s.cur_address);
}

proof fn lemma_pieces_alike(
    def: Definition,
    s: State,
    t: State,
    a: InstructionView,
    b: InstructionView,
    k: int,
    width: int,
)
    requires
        def.wf(),
        instruction_wf(def, a),
        same_state(s, t),
        same_instruction(a, b),
        0 <= k,
    ensures
        same_step(pieces_written(def, s, a, k, width), pieces_written(def, t, b, k, width)),
    decreases def.rules@[a.rule_index as int].production_segments@.len() - k,
{
    let rule = def.rules@[a.rule_index as int];
    assert(rule.wf(def.align_bits));
    if k < rule.production_segments@.len() {
        let expr = rule.production_segments@[k];
        lemma_production_alike(s.labels, rule, a, b, expr);
        match production_value(s.labels, rule, a, expr) {
            Ok(ExpressionValue::Integer(integer)) => {
                lemma_pieces_alike(
                    def,
                    written_at(def, s, a.output + width, integer).0,
                    written_at(def, t, b.output + width, integer).0,
                    a,
                    b,
                    k + 1,
                    width + integer.width() as int / def.align_bits as int,
                );
            },
            _ => {},
        }
    }
}

proof fn lemma_instruction_output_alike(
    def: Definition,
    s: State,
    t: State,
    a: InstructionView,
    b: InstructionView,
)
    requires
        def.wf(),
        instruction_wf(def, a),
        same_state(s, t),
        same_instruction(a, b),
    ensures
        same_step(instruction_output(def, s, a), instruction_output(def, t, b)),
        instructions_wf(def, s) ==> instructions_wf(def, instruction_output(def, s, a).0),
{
    let bits = def.rules@[a.rule_index as int].production_bit_num as int;
    lemma_instruction_resolvable_alike(s.labels, a, b);
    lemma_pieces_alike(def, advanced(def, s, bits).0, advanced(def, t, bits).0, a, b, 0, 0);
    pieces_change_output_only(def, advanced(def, s, bits).0, a, 0, 0);
}

// ---- Lines ----

/// The tokens and expressions of `x` up to position `hi` stand in `y`, `d` positions further on, up
/// to spans. At position `hi` there is a line break or the end.
pub open spec fn stretch(x: Source, y: Source, d: int, hi: int) -> bool {
    &&& 0 <= hi <= x.tokens@.len()
    &&& 0 <= d
    &&& x.token_at(hi).kind is LineBreak || x.token_at(hi).kind is End
    &&& forall|p: int|
        0 <= p <= hi ==> {
            &&& same_token(#[trigger] x.token_at(p), y.token_at(p + d))
            &&& same_parsed(x.expressions@[p], y.expressions@[p + d])
            &&& p >= x.tokens@.len() <==> p + d >= y.tokens@.len()
            &&& x.expressions@[p] matches ParsedExpression::Parsed { length, .. } ==> p + length
                <= hi
        }
}

/// Two lines that do the same, up to spans. If they end well, they do so at the same place of the
/// stretch.
pub open spec fn alike(
    def: Definition,
    x: Source,
    y: Source,
    d: int,
    hi: int,
    a: Reached,
    b: Reached,
) -> bool {
    &&& same_state(a.st, b.st)
    &&& instructions_wf(def, a.st)
    &&& same_outcome(a.result, b.result)
    &&& a.result is Err ==> b.pos == a.pos + d
    &&& a.result is Ok ==> exists|q: int|
        0 <= q <= hi && #[trigger] line_end_read(x, q) == Ok::<int, FailureView>(a.pos)
            && line_end_read(y, q + d) == Ok::<int, FailureView>(b.pos)
}

/// No line asks for a file.
pub open spec fn asks_for_nothing(source: Source) -> bool {
    forall|p: int|
        0 <= p < source.tokens@.len() ==> !(#[trigger] source.token_at(p).spec_is_operator("."@)
            && source.token_at(p + 1).spec_identifier() == Some("include"@))
}

/// What one file asks for is what the other one asks for. If not `lax`, what is missing or nested
/// too deeply is so from both.
pub open spec fn linked(
    fx: IncludedFiles,
    fy: IncludedFiles,
    x: Source,
    y: Source,
    dx: nat,
    dy: nat,
    lax: bool,
) -> bool {
    ||| asks_for_nothing(x)
    ||| {
        &&& found_alike(fx, fy, x.filename@, y.filename@, lax)
        &&& files_alike(fx, fy, lax)
        &&& if lax {
            dx <= dy
        } else {
            dx == dy && x.filename@ == y.filename@
        }
    }
}

proof fn lemma_alike_finished(
    def: Definition,
    s: State,
    t: State,
    x: Source,
    y: Source,
    d: int,
    hi: int,
    p: int,
)
    requires
        same_state(s, t),
        instructions_wf(def, s),
        stretch(x, y, d, hi),
        0 <= p <= hi,
    ensures
        alike(def, x, y, d, hi, line_finished(s, x, p), line_finished(t, y, p + d)),
{
    assert(same_token(x.token_at(p), y.token_at(p + d)));
    if line_finished(s, x, p).result is Ok {
        assert(line_end_read(x, p) is Ok);
        assert(line_end_read(y, p + d) is Ok);
    }
}

proof fn lemma_alike_data(
    def: Definition,
    s: State,
    t: State,
    x: Source,
    y: Source,
    d: int,
    hi: int,
    p: int,
    data_width: usize,
)
    requires
        same_state(s, t),
        instructions_wf(def, s),
        stretch(x, y, d, hi),
        0 <= p <= hi,
    ensures
        alike(
            def,
            x,
            y,
            d,
            hi,
            data_parsed(def, s, x, p, data_width),
            data_parsed(def, t, y, p + d, data_width),
        ),
    decreases x.tokens@.len() - p,
{
    assert(same_token(x.token_at(p), y.token_at(p + d)));
    match (expression_read(x, p), expression_read(y, p + d)) {
        (Ok((a, next)), Ok((b, _))) => {
            assert(same_token(x.token_at(next), y.token_at(next + d)));
            lemma_expression_output_alike(def, s, t, a, b, data_width);
            let s_after = expression_output(def, s, a, data_width).0;
            let t_after = expression_output(def, t, b, data_width).0;
            if x.token_at(next).spec_is_operator(","@) && next < x.tokens@.len() {
                assert(next < hi);
                lemma_alike_data(def, s_after, t_after, x, y, d, hi, next + 1, data_width);
            } else {
                lemma_alike_finished(def, s_after, t_after, x, y, d, hi, next);
            }
        },
        _ => {},
    }
}

proof fn lemma_alike_argument(s: State, t: State, rule: Rule, param: int, a: Expression, b: Expression)
    requires
        same_state(s, t),
        same_expression(a, b),
    ensures
        same_outcome(argument_accepted(s, rule, param, a), argument_accepted(t, rule, param, b)),
{
    lemma_value_alike(s.labels, a, b, current_context(s), s.cur_address);
    match argument_accepted(s, rule, param, a) {
        Err(failure) => {
            assert(same_failure(failure, failure));
        },
        Ok(_) => {},
    }
}

/// Two outcomes of matching a pattern that differ in spans only.
pub open spec fn matched_alike(
    a: Outcome<Option<Seq<Expression>>>,
    b: Outcome<Option<Seq<Expression>>>,
) -> bool {
    match (a, b) {
        (Ok(Some(x)), Ok(Some(y))) => same_expressions(x, y),
        (Ok(None), Ok(None)) => true,
        (Err(f), Err(g)) => same_failure(f, g),
        _ => false,
    }
}

proof fn lemma_alike_segments(
    s: State,
    t: State,
    x: Source,
    y: Source,
    d: int,
    hi: int,
    rule: Rule,
    k: int,
    p: int,
    xs: Seq<Expression>,
    ys: Seq<Expression>,
)
    requires
        same_state(s, t),
        stretch(x, y, d, hi),
        0 <= p <= hi,
        0 <= k,
        same_expressions(xs, ys),
    ensures
        ({
            let (next, matched) = segments_matched(s, x, rule, k, p, xs);
            let (other, other_matched) = segments_matched(t, y, rule, k, p + d, ys);
            &&& 0 <= next <= hi
            &&& other == next + d
            &&& matched_alike(matched, other_matched)
        }),
    decreases rule.pattern_segments@.len() - k,
{
    assert(same_token(x.token_at(p), y.token_at(p + d)));
    if k < rule.pattern_segments@.len() {
        match rule.pattern_segments@[k] {
            PatternSegment::Exact(chars) => {
                if x.token_at(p).spec_identifier() == Some(chars@) || x.token_at(
                    p,
                ).spec_is_operator(chars@) {
                    assert(p < hi);
                    lemma_alike_segments(s, t, x, y, d, hi, rule, k + 1, p + 1, xs, ys);
                }
            },
            PatternSegment::Parameter(param) => {
                match (expression_read(x, p), expression_read(y, p + d)) {
                    (Ok((a, next)), Ok((b, _))) => {
                        lemma_alike_argument(s, t, rule, param as int, a, b);
                        lemma_alike_segments(
                            s,
                            t,
                            x,
                            y,
                            d,
                            hi,
                            rule,
                            k + 1,
                            next,
                            xs.push(a),
                            ys.push(b),
                        );
                    },
                    _ => {},
                }
            },
        }
    }
}

/// Two matches that differ in spans only, the second `d` positions further on.
pub open spec fn found_further(
    a: Option<(InstructionView, int)>,
    b: Option<(InstructionView, int)>,
    d: int,
    hi: int,
) -> bool {
    match (a, b) {
        (Some((i, p)), Some((j, q))) => same_instruction(i, j) && q == p + d && 0 <= p <= hi,
        (None, None) => true,
        _ => false,
    }
}

proof fn lemma_alike_rules(
    def: Definition,
    s: State,
    t: State,
    x: Source,
    y: Source,
    d: int,
    hi: int,
    p: int,
    k: int,
    best: Option<(InstructionView, int)>,
    other: Option<(InstructionView, int)>,
)
    requires
        same_state(s, t),
        stretch(x, y, d, hi),
        0 <= p <= hi,
        0 <= k,
        found_further(best, other, d, hi),
    ensures
        match (
            rule_selected(def, s, x, p, k, best),
            rule_selected(def, t, y, p + d, k, other),
        ) {
            (Ok(a), Ok(b)) => found_further(a, b, d, hi),
            (Err(f), Err(g)) => same_failure(f, g),
            _ => false,
        },
    decreases def.rules@.len() - k,
{
    if k < def.rules@.len() {
        lemma_alike_segments(
            s,
            t,
            x,
            y,
            d,
            hi,
            def.rules@[k as usize as int],
            0,
            p,
            Seq::empty(),
            Seq::empty(),
        );
        match (rule_matched(def, s, x, p, k as usize), rule_matched(def, t, y, p + d, k as usize)) {
            ((next, Ok(Some(i))), (far, Ok(Some(j)))) => {
                lemma_instruction_resolvable_alike(s.labels, i, j);
                lemma_alike_rules(
                    def,
                    s,
                    t,
                    x,
                    y,
                    d,
                    hi,
                    p,
                    k + 1,
                    Some((i, next)),
                    Some((j, far)),
                );
            },
            _ => {
                lemma_alike_rules(def, s, t, x, y, d, hi, p, k + 1, best, other);
            },
        }
    }
}

proof fn lemma_alike_instruction(
    def: Definition,
    s: State,
    t: State,
    x: Source,
    y: Source,
    d: int,
    hi: int,
    p: int,
)
    requires
        def.wf(),
        same_state(s, t),
        instructions_wf(def, s),
        stretch(x, y, d, hi),
        0 <= p <= hi,
    ensures
        alike(
            def,
            x,
            y,
            d,
            hi,
            instruction_parsed(def, s, x, p),
            instruction_parsed(def, t, y, p + d),
        ),
{
    lemma_alike_rules(def, s, t, x, y, d, hi, p, 0, None, None);
    selected_instruction_is_complete(def, s, x, p);
    match (rule_selected(def, s, x, p, 0, None), rule_selected(def, t, y, p + d, 0, None)) {
        (Ok(Some((i, next))), Ok(Some((j, _)))) => {
            lemma_instruction_output_alike(def, s, t, i, j);
            let s_after = instruction_output(def, s, i).0;
            let t_after = instruction_output(def, t, j).0;
            lemma_alike_finished(def, s_after, t_after, x, y, d, hi, next);
        },
        _ => {},
    }
}

proof fn lemma_alike_number(
    s: State,
    t: State,
    x: Source,
    y: Source,
    d: int,
    hi: int,
    p: int,
)
    requires
        same_state(s, t),
        stretch(x, y, d, hi),
        0 <= p <= hi,
    ensures
        ({
            let (end, number) = number_read(s, x, p);
            let (far, other) = number_read(t, y, p + d);
            &&& 0 <= end <= hi
            &&& far == end + d
            &&& same_outcome(number, other)
        }),
{
    assert(same_token(x.token_at(p), y.token_at(p + d)));
    match (expression_read(x, p), expression_read(y, p + d)) {
        (Ok((a, _)), Ok((b, _))) => {
            lemma_value_alike(s.labels, a, b, current_context(s), s.cur_address);
        },
        _ => {},
    }
}

proof fn lemma_alike_labels(
    def: Definition,
    s: State,
    t: State,
    x: Source,
    y: Source,
    d: int,
    hi: int,
    p: int,
)
    requires
        same_state(s, t),
        instructions_wf(def, s),
        stretch(x, y, d, hi),
        0 <= p <= hi,
    ensures
        alike(def, x, y, d, hi, constant_parsed(s, x, p), constant_parsed(t, y, p + d)),
        alike(def, x, y, d, hi, global_label_parsed(s, x, p), global_label_parsed(t, y, p + d)),
        alike(def, x, y, d, hi, local_label_parsed(s, x, p), local_label_parsed(t, y, p + d)),
{
    assert(same_token(x.token_at(p), y.token_at(p + d)));
    if p < hi {
        assert(same_token(x.token_at(p + 1), y.token_at(p + 1 + d)));
        if p + 1 < hi {
            assert(same_token(x.token_at(p + 2), y.token_at(p + 2 + d)));
            match (expression_read(x, p + 2), expression_read(y, p + 2 + d)) {
                (Ok((a, next)), Ok((b, _))) => {
                    lemma_value_alike(s.labels, a, b, current_context(s), s.cur_address);
                    let one = constant_parsed(s, x, p).st;
                    let other = constant_parsed(t, y, p + d).st;
                    if same_state(one, other) {
                        lemma_alike_finished(def, one, other, x, y, d, hi, next);
                    }
                },
                _ => {},
            }
            let one = global_label_parsed(s, x, p).st;
            let other = global_label_parsed(t, y, p + d).st;
            lemma_alike_finished(def, one, other, x, y, d, hi, p + 2);
            if p + 2 < hi {
                assert(same_token(x.token_at(p + 3), y.token_at(p + 3 + d)));
                let one = local_label_parsed(s, x, p).st;
                let other = local_label_parsed(t, y, p + d).st;
                lemma_alike_finished(def, one, other, x, y, d, hi, p + 3);
            }
        }
    }
}

proof fn lemma_alike_directive(
    def: Definition,
    fx: IncludedFiles,
    fy: IncludedFiles,
    s: State,
    t: State,
    x: Source,
    y: Source,
    d: int,
    hi: int,
    p: int,
    dx: nat,
    dy: nat,
    lax: bool,
)
    requires
        def.wf(),
        x.wf(),
        fx.wf(),
        same_state(s, t),
        instructions_wf(def, s),
        s.labels.has_context(),
        stretch(x, y, d, hi),
        0 <= p <= hi,
        linked(fx, fy, x, y, dx, dy, lax),
        lax ==> !lacks_files(directive_parsed(def, fx, s, x, p, dx).result),
    ensures
        alike(
            def,
            x,
            y,
            d,
            hi,
            directive_parsed(def, fx, s, x, p, dx),
            directive_parsed(def, fy, t, y, p + d, dy),
        ),
    decreases dx, x.tokens@.len() - p, 1int,
{
    assert(same_token(x.token_at(p), y.token_at(p + d)));
    match directive_name_read(x, p) {
        (next, Ok((directive, _))) => {
            assert(same_token(x.token_at(p + 1), y.token_at(p + 1 + d)));
            assert(next <= hi);
            assert(same_token(x.token_at(next), y.token_at(next + d)));
            match data_directive_width(directive) {
                Some(width) => {
                    lemma_alike_data(def, s, t, x, y, d, hi, next, width);
                },
                None => {
                    if directive == "include"@ {
                        lemma_asking_directive();
                        lemma_alike_asking(def, fx, fy, s, t, x, y, d, hi, p, dx, dy, lax);
                    } else {
                        lemma_alike_others(def, s, t, x, y, d, hi, next);
                    }
                },
            }
        },
        (next, Err(_)) => {
            if next == p + 1 {
                assert(same_token(x.token_at(p + 1), y.token_at(p + 1 + d)));
            }
        },
    }
}

/// What the directives other than data directives and those that ask for files do.
proof fn lemma_alike_others(
    def: Definition,
    s: State,
    t: State,
    x: Source,
    y: Source,
    d: int,
    hi: int,
    next: int,
)
    requires
        same_state(s, t),
        instructions_wf(def, s),
        stretch(x, y, d, hi),
        0 <= next <= hi,
    ensures
        ({
            let (end, number) = number_read(s, x, next);
            let (far, other) = number_read(t, y, next + d);
            &&& far == end + d
            &&& same_outcome(number, other)
            &&& number matches Ok(n) ==> {
                let one = reserved(def, s, n);
                let two = reserved(def, t, n);
                &&& alike(
                    def,
                    x,
                    y,
                    d,
                    hi,
                    line_finished(State { cur_address: n, ..s }, x, end),
                    line_finished(State { cur_address: n, ..t }, y, far),
                )
                &&& alike(
                    def,
                    x,
                    y,
                    d,
                    hi,
                    line_finished(State { cur_output: n, ..s }, x, end),
                    line_finished(State { cur_output: n, ..t }, y, far),
                )
                &&& same_step(one, two)
                &&& instructions_wf(def, one.0)
                &&& alike(
                    def,
                    x,
                    y,
                    d,
                    hi,
                    line_finished(one.0, x, end),
                    line_finished(two.0, y, far),
                )
            }
        }),
        match (string_read(x, next), string_read(y, next + d)) {
            (Ok((name, end)), Ok((other, far))) => {
                &&& name == other
                &&& far == end + d
                &&& end <= hi
                &&& alike(
                    def,
                    x,
                    y,
                    d,
                    hi,
                    line_finished(s, x, end),
                    line_finished(t, y, far),
                )
            },
            (Err(f), Err(g)) => same_failure(f, g),
            _ => false,
        },
{
    lemma_alike_number(s, t, x, y, d, hi, next);
    assert(same_token(x.token_at(next), y.token_at(next + d)));
    let (end, number) = number_read(s, x, next);
    match number {
        Ok(n) => {
            lemma_alike_finished(
                def,
                State { cur_address: n, ..s },
                State { cur_address: n, ..t },
                x,
                y,
                d,
                hi,
                end,
            );
            lemma_alike_finished(
                def,
                State { cur_output: n, ..s },
                State { cur_output: n, ..t },
                x,
                y,
                d,
                hi,
                end,
            );
            lemma_alike_finished(
                def,
                reserved(def, s, n).0,
                reserved(def, t, n).0,
                x,
                y,
                d,
                hi,
                end,
            );
        },
        Err(_) => {},
    }
    match string_read(x, next) {
        Ok((_, end)) => {
            lemma_alike_finished(def, s, t, x, y, d, hi, end);
        },
        Err(_) => {},
    }
}

proof fn lemma_alike_asking(
    def: Definition,
    fx: IncludedFiles,
    fy: IncludedFiles,
    s: State,
    t: State,
    x: Source,
    y: Source,
    d: int,
    hi: int,
    p: int,
    dx: nat,
    dy: nat,
    lax: bool,
)
    requires
        def.wf(),
        x.wf(),
        fx.wf(),
        same_state(s, t),
        instructions_wf(def, s),
        s.labels.has_context(),
        stretch(x, y, d, hi),
        0 <= p <= hi,
        linked(fx, fy, x, y, dx, dy, lax),
        lax ==> !lacks_files(directive_parsed(def, fx, s, x, p, dx).result),
        x.token_at(p).spec_is_operator("."@),
        x.token_at(p + 1).spec_identifier() == Some("include"@),
    ensures
        alike(
            def,
            x,
            y,
            d,
            hi,
            directive_parsed(def, fx, s, x, p, dx),
            directive_parsed(def, fy, t, y, p + d, dy),
        ),
    decreases dx, x.tokens@.len() - p, 0int,
{
    lemma_asking_directive();
    assert(same_token(x.token_at(p), y.token_at(p + d)));
    assert(p < hi);
    assert(same_token(x.token_at(p + 1), y.token_at(p + 1 + d)));
    assert(p + 1 < hi);
    assert(!asks_for_nothing(x));
    lemma_alike_others(def, s, t, x, y, d, hi, p + 2);
    match string_read(x, p + 2) {
        Ok((name, end)) => {
            assert(fy.found(y.filename@, name, 0) is Some || fy.found(y.filename@, name, 0) is None);
            match fx.found(x.filename@, name, 0) {
                Some(nx) => {
                    let ny = fy.found(y.filename@, name, 0)->Some_0;
                    lemma_found(fx, x.filename@, name, 0);
                    if dx > 0 {
                        let start = file_start(nx);
                        let inner = (dx - 1) as nat;
                        let other = (dy - 1) as nat;
                        assert(asked_alike(fx, fy, nx.filename@, lax));
                        assert(linked(fx, fy, nx, ny, inner, other, lax));
                        lemma_whole_is_stretch(nx, ny);
                        lemma_after_linebreaks(nx, 0);
                        lemma_alike_breaks(nx, ny, 0, 0);
                        lemma_alike_lines(
                            def,
                            fx,
                            fy,
                            s,
                            t,
                            nx,
                            ny,
                            0,
                            start,
                            inner,
                            other,
                            lax,
                        );
                        lemma_alike_finished(
                            def,
                            lines_parsed(def, fx, s, nx, start, inner).0,
                            lines_parsed(def, fy, t, ny, start, other).0,
                            x,
                            y,
                            d,
                            hi,
                            end,
                        );
                    }
                },
                None => {},
            }
        },
        Err(_) => {},
    }
}

pub(crate) proof fn lemma_alike_line(
    def: Definition,
    fx: IncludedFiles,
    fy: IncludedFiles,
    s: State,
    t: State,
    x: Source,
    y: Source,
    d: int,
    hi: int,
    p: int,
    dx: nat,
    dy: nat,
    lax: bool,
)
    requires
        def.wf(),
        x.wf(),
        fx.wf(),
        same_state(s, t),
        instructions_wf(def, s),
        s.labels.has_context(),
        stretch(x, y, d, hi),
        0 <= p <= hi,
        linked(fx, fy, x, y, dx, dy, lax),
        lax ==> !lacks_files(line_parsed(def, fx, s, x, p, dx).result),
    ensures
        alike(
            def,
            x,
            y,
            d,
            hi,
            line_parsed(def, fx, s, x, p, dx),
            line_parsed(def, fy, t, y, p + d, dy),
        ),
    decreases dx, x.tokens@.len() - p, 2int,
{
    assert(same_token(x.token_at(p), y.token_at(p + d)));
    if x.token_at(p).spec_is_operator("."@) {
        lemma_alike_directive(def, fx, fy, s, t, x, y, d, hi, p, dx, dy, lax);
    } else {
        if p < hi {
            assert(same_token(x.token_at(p + 1), y.token_at(p + 1 + d)));
            if p + 1 < hi {
                assert(same_token(x.token_at(p + 2), y.token_at(p + 2 + d)));
            }
        }
        lemma_alike_labels(def, s, t, x, y, d, hi, p);
        lemma_alike_instruction(def, s, t, x, y, d, hi, p);
    }
}

/// The text of `x` is the rest of `y` from position `d` on, up to spans.
pub open spec fn closing_stretch(x: Source, y: Source, d: int) -> bool {
    stretch(x, y, d, x.tokens@.len() as int) && y.tokens@.len() == x.tokens@.len() + d
}

pub(crate) proof fn lemma_alike_breaks(x: Source, y: Source, d: int, p: int)
    requires
        closing_stretch(x, y, d),
        0 <= p <= x.tokens@.len(),
    ensures
        y.after_linebreaks(p + d) == x.after_linebreaks(p) + d,
    decreases x.tokens@.len() - p,
{
    assert(same_token(x.token_at(p), y.token_at(p + d)));
    if p < x.tokens@.len() && x.token_at(p).kind is LineBreak {
        lemma_alike_breaks(x, y, d, p + 1);
        assert(p + 1 + d == (p + d) + 1);
    }
}

pub(crate) proof fn lemma_whole_is_stretch(x: Source, y: Source)
    requires
        x.wf(),
        same_text(x, y),
    ensures
        closing_stretch(x, y, 0),
{
    let hi = x.tokens@.len() as int;
    assert forall|p: int| 0 <= p <= hi implies {
        &&& same_token(#[trigger] x.token_at(p), y.token_at(p + 0))
        &&& same_parsed(x.expressions@[p], y.expressions@[p + 0])
        &&& p >= x.tokens@.len() <==> p + 0 >= y.tokens@.len()
        &&& x.expressions@[p] matches ParsedExpression::Parsed { length, .. } ==> p + length <= hi
    } by {
        assert(p + 0 == p);
        if p < hi {
            assert(same_token(x.tokens@[p], y.tokens@[p]));
        }
        assert(same_parsed(x.expressions@[p], y.expressions@[p]));
    }
}

pub(crate) proof fn lemma_alike_lines(
    def: Definition,
    fx: IncludedFiles,
    fy: IncludedFiles,
    s: State,
    t: State,
    x: Source,
    y: Source,
    d: int,
    p: int,
    dx: nat,
    dy: nat,
    lax: bool,
)
    requires
        def.wf(),
        x.wf(),
        fx.wf(),
        same_state(s, t),
        instructions_wf(def, s),
        s.labels.has_context(),
        closing_stretch(x, y, d),
        0 <= p <= x.tokens@.len(),
        linked(fx, fy, x, y, dx, dy, lax),
        lax ==> !lacks_files(lines_parsed(def, fx, s, x, p, dx).1),
    ensures
        same_step(
            lines_parsed(def, fx, s, x, p, dx),
            lines_parsed(def, fy, t, y, p + d, dy),
        ),
        instructions_wf(def, lines_parsed(def, fx, s, x, p, dx).0),
    decreases dx, x.tokens@.len() - p, 3int,
{
    let n = x.tokens@.len() as int;
    if p < n {
        line_keeps_state(def, fx, s, x, p, dx);
        let a = line_parsed(def, fx, s, x, p, dx);
        let b = line_parsed(def, fy, t, y, p + d, dy);
        lemma_alike_line(def, fx, fy, s, t, x, y, d, n, p, dx, dy, lax);
        if a.result is Ok {
            let q = choose|q: int|
                0 <= q <= n && #[trigger] line_end_read(x, q) == Ok::<int, FailureView>(a.pos)
                    && line_end_read(y, q + d) == Ok::<int, FailureView>(b.pos);
            lemma_alike_breaks(x, y, d, q);
            lemma_alike_lines(def, fx, fy, a.st, b.st, x, y, d, a.pos, dx, dy, lax);
        }
    }
}

// ---- Second pass ----

proof fn lemma_instructions_completed_alike(
    def: Definition,
    s: State,
    t: State,
    xs: Seq<InstructionView>,
    ys: Seq<InstructionView>,
    k: int,
)
    requires
        def.wf(),
        same_state(s, t),
        xs.len() == ys.len(),
        forall|i: int| 0 <= i < xs.len() ==> instruction_wf(def, #[trigger] xs[i]),
        forall|i: int| 0 <= i < xs.len() ==> same_instruction(#[trigger] xs[i], ys[i]),
        0 <= k,
    ensures
        same_step(
            instructions_completed(def, s, xs, k),
            instructions_completed(def, t, ys, k),
        ),
    decreases xs.len() - k,
{
    if k < xs.len() {
        assert(instruction_wf(def, xs[k]) && same_instruction(xs[k], ys[k]));
        lemma_pieces_alike(def, s, t, xs[k], ys[k], 0, 0);
        lemma_instructions_completed_alike(
            def,
            instruction_resolved(def, s, xs[k]).0,
            instruction_resolved(def, t, ys[k]).0,
            xs,
            ys,
            k + 1,
        );
    }
}

proof fn lemma_expressions_completed_alike(
    def: Definition,
    s: State,
    t: State,
    xs: Seq<UnresolvedExpression>,
    ys: Seq<UnresolvedExpression>,
    k: int,
)
    requires
        same_state(s, t),
        xs.len() == ys.len(),
        forall|i: int| 0 <= i < xs.len() ==> same_data(#[trigger] xs[i], ys[i]),
        0 <= k,
    ensures
        same_step(expressions_completed(def, s, xs, k), expressions_completed(def, t, ys, k)),
    decreases xs.len() - k,
{
    if k < xs.len() {
        assert(same_data(xs[k], ys[k]));
        lemma_value_alike(s.labels, xs[k].expr, ys[k].expr, xs[k].label_ctx, xs[k].address);
        lemma_expressions_completed_alike(
            def,
            expression_completed(def, s, xs[k]).0,
            expression_completed(def, t, ys[k]).0,
            xs,
            ys,
            k + 1,
        );
    }
}

/// The second pass makes the same of two states that differ in spans only.
pub proof fn second_pass_ignores_spans(def: Definition, s: State, t: State)
    requires
        def.wf(),
        same_state(s, t),
        instructions_wf(def, s),
    ensures
        same_step(completed(def, s), completed(def, t)),
{
    let xs = s.unresolved_instructions;
    let ys = t.unresolved_instructions;
    let s1 = State { unresolved_instructions: Seq::empty(), ..s };
    let t1 = State { unresolved_instructions: Seq::empty(), ..t };
    assert forall|i: int| 0 <= i < xs.len() implies instruction_wf(def, #[trigger] xs[i]) by {
        assert(instruction_wf(def, s.unresolved_instructions[i]));
    }
    lemma_instructions_completed_alike(def, s1, t1, xs, ys, 0);
    let s2 = instructions_completed(def, s1, xs, 0).0;
    let t2 = instructions_completed(def, t1, ys, 0).0;
    lemma_expressions_completed_alike(
        def,
        State { unresolved_expressions: Seq::empty(), ..s2 },
        State { unresolved_expressions: Seq::empty(), ..t2 },
        s.unresolved_expressions,
        t.unresolved_expressions,
        0,
    );
}

// ---- Whole programs ----

/// Places in the source do not matter. Two programs that differ in spans only, with files to ask
/// for that differ in spans only, stand for the same bits, or fail with the same message.
pub proof fn spans_do_not_matter(
    def: Definition,
    x: Source,
    y: Source,
    files_x: IncludedFiles,
    files_y: IncludedFiles,
)
    requires
        def.wf(),
        x.wf(),
        files_x.wf(),
        same_up_to_spans(x, y),
        files_alike(files_x, files_y, false),
        files_x.max_depth == files_y.max_depth,
    ensures
        same_outcome(assembled(def, x, files_x), assembled(def, y, files_y)),
{
    let depth = files_x.max_depth as nat;
    let start = initial_state();
    lemma_whole_is_stretch(x, y);
    lemma_after_linebreaks(x, 0);
    lemma_alike_breaks(x, y, 0, 0);
    same_state_is_reflexive(start);
    assert(asked_alike(files_x, files_y, x.filename@, false));
    lemma_alike_lines(
        def,
        files_x,
        files_y,
        start,
        start,
        x,
        y,
        0,
        file_start(x),
        depth,
        depth,
        false,
    );
    second_pass_ignores_spans(
        def,
        first_pass(def, x, files_x).0,
        first_pass(def, y, files_y).0,
    );
}

} // verus!
