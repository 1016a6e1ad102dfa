//! What assembling a program means: the state that the first pass carries from line to line,
//! what each kind of line does to it, and what the second pass makes of what is left over.

use vstd::prelude::*;
use crate::assembler::UnresolvedExpression;
use crate::bitvec::overlay;
use crate::definition::Definition;
use crate::error::{error_at, FailureView, Outcome, Span};
use crate::expr::{all_names, resolved, Expression, ExpressionName, ExpressionValue};
use crate::integer::Integer;
use crate::label::{LabelContext, Labels};
use crate::parser::{
    expression_read,
    file_start,
    identifier_read,
    line_end_read,
    operator_read,
    string_read,
};
use crate::rule::{PatternSegment, Rule};
use crate::source::{IncludedFiles, Source};
use crate::text::{decimal_number, decimal_text, quoted};

verus! {

/// An instruction that a rule was found for.
#[verifier::ext_equal]
pub struct InstructionView {
    pub rule_index: usize,
    pub label_ctx: LabelContext,
    pub address: usize,
    pub output: usize,
    pub arguments: Seq<Expression>,
}

/// What the assembler knows between two lines.
#[verifier::ext_equal]
pub struct State {
    pub cur_address: usize,
    pub cur_output: usize,
    pub labels: Labels,
    pub unresolved_instructions: Seq<InstructionView>,
    pub unresolved_expressions: Seq<UnresolvedExpression>,
    pub output_bits: Seq<bool>,
}

/// The state that a step leads to, and whether the step was completed. A step that fails keeps what
/// it did before.
pub type Step = (State, Outcome<()>);

/// The position that reading leads to, and what was read.
pub type Read<T> = (int, Outcome<T>);

/// What reading a line leads to: the state and the position, and whether the line was read to its
/// end. A line that fails keeps what it did before, and is left at the position of the failure.
pub struct Reached {
    pub st: State,
    pub pos: int,
    pub result: Outcome<()>,
}

/// A line that fails with a state and at a position.
pub open spec fn stopped(st: State, pos: int, failure: FailureView) -> Reached {
    Reached { st, pos, result: Err(failure) }
}

/// The state before the first line.
pub open spec fn initial_state() -> State {
    State {
        cur_address: 0,
        cur_output: 0,
        labels: Labels::none(),
        unresolved_instructions: Seq::empty(),
        unresolved_expressions: Seq::empty(),
        output_bits: Seq::empty(),
    }
}

/// An address as a value in expressions.
pub open spec fn address_value(address: usize) -> ExpressionValue {
    ExpressionValue::Integer(Integer::plain(address as i64))
}

/// The context that the program is in.
pub open spec fn current_context(st: State) -> LabelContext {
    LabelContext { index: st.labels.cur_context() as usize }
}

// ---- Resolving expressions ----

/// The names that have a value within a context: the program counter and the labels.
pub open spec fn known_names(labels: Labels, ctx: LabelContext) -> spec_fn(ExpressionName) -> bool {
    |name: ExpressionName|
        match name {
            ExpressionName::GlobalVariable(name) => name@ == "pc"@ || labels.global(name@) is Some,
            ExpressionName::LocalVariable(name) => labels.local(ctx, name@) is Some,
        }
}

/// The values of names in the program: `pc` is the address of the line, every other name a label.
pub open spec fn label_env(labels: Labels, ctx: LabelContext, pc: usize) -> spec_fn(
    ExpressionName,
    Span,
) -> Outcome<ExpressionValue> {
    |name: ExpressionName, span: Span|
        match name {
            ExpressionName::GlobalVariable(name) => if name@ == "pc"@ {
                Ok(address_value(pc))
            } else {
                match labels.global(name@) {
                    Some(value) => Ok(value),
                    None => Err(error_at(quoted("unknown `"@, name@), span)),
                }
            },
            ExpressionName::LocalVariable(name) => match labels.local(ctx, name@) {
                Some(value) => Ok(value),
                None => Err(error_at(quoted("unknown local `"@, name@), span)),
            },
        }
}

/// Whether the value of an expression is known by now.
pub open spec fn expr_resolvable(labels: Labels, expr: Expression, ctx: LabelContext) -> bool {
    all_names(expr, known_names(labels, ctx))
}

/// The value of an expression in a context and at an address.
pub open spec fn expr_value(
    labels: Labels,
    expr: Expression,
    ctx: LabelContext,
    pc: usize,
) -> Outcome<ExpressionValue> {
    resolved(expr, label_env(labels, ctx, pc))
}

/// The value of an expression where the program is now.
pub open spec fn expr_value_here(st: State, expr: Expression) -> Outcome<ExpressionValue> {
    expr_value(st.labels, expr, current_context(st), st.cur_address)
}

/// The number that a value has to be, as an address or a count. A negative number wraps round.
pub open spec fn integer_extracted(value: ExpressionValue, span: Span) -> Outcome<usize> {
    match value {
        ExpressionValue::Integer(integer) => Ok(integer.value as usize),
        _ => Err(error_at("expected integer value"@, span)),
    }
}

/// The values of the names in a constraint: `_` is the argument, `pc` the address.
pub open spec fn constraint_env(argument: ExpressionValue, address: usize) -> spec_fn(
    ExpressionName,
    Span,
) -> Outcome<ExpressionValue> {
    |name: ExpressionName, span: Span|
        match name {
            ExpressionName::GlobalVariable(name) => if name@ == "_"@ {
                Ok(argument)
            } else {
                Ok(address_value(address))
            },
            ExpressionName::LocalVariable(_) => arbitrary(),
        }
}

/// Whether a constraint is true of an argument.
pub open spec fn constraint_checked(
    constraint: Expression,
    argument: ExpressionValue,
    address: usize,
) -> Outcome<bool> {
    match resolved(constraint, constraint_env(argument, address)) {
        Ok(ExpressionValue::Boolean(holds)) => Ok(holds),
        Ok(_) => Err(error_at("invalid constraint expression type"@, constraint.span)),
        Err(failure) => Err(failure),
    }
}

/// The value of the argument for a parameter, which has to meet the parameter's constraint.
pub open spec fn argument_value(
    labels: Labels,
    rule: Rule,
    instr: InstructionView,
    param: int,
) -> Outcome<ExpressionValue> {
    let arg = instr.arguments[param];
    match expr_value(labels, arg, instr.label_ctx, instr.address) {
        Ok(value) => match rule.parameters@[param].constraint {
            None => Ok(value),
            Some(constraint) => match constraint_checked(constraint, value, instr.address) {
                Ok(true) => Ok(value),
                Ok(false) => Err(error_at("parameter constraint not satisfied"@, arg.span)),
                Err(failure) => Err(failure),
            },
        },
        Err(failure) => Err(failure),
    }
}

/// The values of the names in a production: `pc` is the address of the instruction, every other
/// name a parameter.
pub open spec fn production_env(labels: Labels, rule: Rule, instr: InstructionView) -> spec_fn(
    ExpressionName,
    Span,
) -> Outcome<ExpressionValue> {
    |name: ExpressionName, span: Span|
        match name {
            ExpressionName::GlobalVariable(name) => if name@ == "pc"@ {
                Ok(address_value(instr.address))
            } else {
                argument_value(labels, rule, instr, rule.parameter_index(name@, 0).unwrap())
            },
            ExpressionName::LocalVariable(_) => arbitrary(),
        }
}

/// The value of a piece of the production of an instruction.
pub open spec fn production_value(
    labels: Labels,
    rule: Rule,
    instr: InstructionView,
    expr: Expression,
) -> Outcome<ExpressionValue> {
    resolved(expr, production_env(labels, rule, instr))
}

/// Whether the values of all arguments of an instruction are known by now.
pub open spec fn instruction_resolvable(labels: Labels, instr: InstructionView) -> bool {
    forall|i: int|
        0 <= i < instr.arguments.len() ==> expr_resolvable(
            labels,
            #[trigger] instr.arguments[i],
            instr.label_ctx,
        )
}

// ---- Output ----

/// Goes on by a number of bits, which is a multiple of what one address stands for.
pub open spec fn advanced(def: Definition, st: State, bit_num: int) -> Step {
    let inc = bit_num / def.align_bits as int;
    if st.cur_output + inc <= usize::MAX && st.cur_address + inc <= usize::MAX {
        (
            State {
                cur_output: (st.cur_output + inc) as usize,
                cur_address: (st.cur_address + inc) as usize,
                ..st
            },
            Ok(()),
        )
    } else {
        (st, Err(FailureView::Overflow))
    }
}

/// Writes an integer at an output position, which is counted in addresses.
pub open spec fn written_at(def: Definition, st: State, index: int, value: Integer) -> Step {
    if index * def.align_bits + value.width() <= usize::MAX {
        (
            State {
                output_bits: overlay(st.output_bits, index * def.align_bits, value.bits()),
                ..st
            },
            Ok(()),
        )
    } else {
        (st, Err(FailureView::Overflow))
    }
}

/// Writes an integer at the current output position and goes on behind it.
pub open spec fn written(def: Definition, st: State, value: Integer) -> Step {
    match written_at(def, st, st.cur_output as int, value) {
        (st, Ok(_)) => advanced(def, st, value.width() as int),
        (st, Err(failure)) => (st, Err(failure)),
    }
}

/// The lowest bits of an integer, as many as a data directive asks for.
pub open spec fn data_piece(value: Integer, data_width: usize) -> Outcome<Integer> {
    if data_width == 0 {
        Err(FailureView::Overflow)
    } else {
        Ok(value.sliced((data_width - 1) as usize, 0))
    }
}

/// An expression of a data directive, with the circumstances in which it appears.
pub open spec fn data_item(st: State, expr: Expression, data_width: usize) -> UnresolvedExpression {
    UnresolvedExpression {
        expr,
        label_ctx: current_context(st),
        address: st.cur_address,
        output: st.cur_output,
        data_width,
    }
}

/// Puts out an expression of a data directive: at once if its value is known, or else in the
/// second pass, for which its place is kept free.
pub open spec fn expression_output(
    def: Definition,
    st: State,
    expr: Expression,
    data_width: usize,
) -> Step {
    let ctx = current_context(st);
    if expr_resolvable(st.labels, expr, ctx) {
        match expr_value(st.labels, expr, ctx, st.cur_address) {
            Ok(ExpressionValue::Integer(integer)) => match data_piece(integer, data_width) {
                Ok(piece) => written(def, st, piece),
                Err(failure) => (st, Err(failure)),
            },
            Ok(_) => (st, Err(error_at("invalid expression type"@, expr.span))),
            Err(failure) => (st, Err(failure)),
        }
    } else {
        let pending = data_item(st, expr, data_width);
        advanced(
            def,
            State { unresolved_expressions: st.unresolved_expressions.push(pending), ..st },
            data_width as int,
        )
    }
}

/// Writes the pieces of the production of an instruction, from number `k` on, one behind the
/// other; `width` addresses are taken up by the pieces before.
pub open spec fn pieces_written(
    def: Definition,
    st: State,
    instr: InstructionView,
    k: int,
    width: int,
) -> Step
    decreases def.rules@[instr.rule_index as int].production_segments@.len() - k,
{
    let rule = def.rules@[instr.rule_index as int];
    if 0 <= k < rule.production_segments@.len() {
        let expr = rule.production_segments@[k];
        match production_value(st.labels, rule, instr, expr) {
            Ok(ExpressionValue::Integer(integer)) => match written_at(
                def,
                st,
                instr.output + width,
                integer,
            ) {
                (st, Ok(_)) => pieces_written(
                    def,
                    st,
                    instr,
                    k + 1,
                    width + integer.width() as int / def.align_bits as int,
                ),
                (st, Err(failure)) => (st, Err(failure)),
            },
            Ok(_) => (st, Err(error_at("invalid production expression type"@, expr.span))),
            Err(failure) => (st, Err(failure)),
        }
    } else {
        (st, Ok(()))
    }
}

/// Writes an instruction at its place.
pub open spec fn instruction_resolved(def: Definition, st: State, instr: InstructionView) -> Step {
    pieces_written(def, st, instr, 0, 0)
}

/// Puts out an instruction: at once if the values of its arguments are known, or else in the
/// second pass. Either way its place is kept free.
pub open spec fn instruction_output(def: Definition, st: State, instr: InstructionView) -> Step {
    match advanced(def, st, def.rules@[instr.rule_index as int].production_bit_num as int) {
        (st, Ok(_)) => if instruction_resolvable(st.labels, instr) {
            instruction_resolved(def, st, instr)
        } else {
            (
                State { unresolved_instructions: st.unresolved_instructions.push(instr), ..st },
                Ok(()),
            )
        },
        (st, Err(failure)) => (st, Err(failure)),
    }
}

// ---- Lines ----

/// Reads the expressions of a data directive, which commas separate. Each is put out before the
/// next one is read.
pub open spec fn data_parsed(
    def: Definition,
    st: State,
    source: Source,
    pos: int,
    data_width: usize,
) -> Reached
    decreases source.tokens@.len() - pos,
{
    match expression_read(source, pos) {
        Ok((expr, next)) => match expression_output(def, st, expr, data_width) {
            (st, Ok(_)) => if source.token_at(next).spec_is_operator(","@) && 0 <= next
                < source.tokens@.len() {
                data_parsed(def, st, source, next + 1, data_width)
            } else {
                line_finished(st, source, next)
            },
            (st, Err(failure)) => stopped(st, next, failure),
        },
        Err(failure) => stopped(st, pos, failure),
    }
}

/// Reads the end of a line.
pub open spec fn line_finished(st: State, source: Source, pos: int) -> Reached {
    match line_end_read(source, pos) {
        Ok(next) => Reached { st, pos: next, result: Ok(()) },
        Err(failure) => stopped(st, pos, failure),
    }
}

/// Reads a name and the operator that has to follow it: the name and its place.
pub open spec fn named_read(source: Source, pos: int, op: Seq<char>) -> Read<(Seq<char>, Span)> {
    match identifier_read(source, pos) {
        Ok((name, span, next)) => match operator_read(source, next, op) {
            Ok(next) => (next, Ok((name, span))),
            Err(failure) => (next, Err(failure)),
        },
        Err(failure) => (pos, Err(failure)),
    }
}

/// Reads the definition of a constant: a name, an equals sign and an expression.
pub open spec fn constant_parsed(st: State, source: Source, pos: int) -> Reached {
    match named_read(source, pos, "="@) {
        (next, Ok((name, span))) => if st.labels.global(name) is Some {
            stopped(st, next, error_at(quoted("duplicate global label `"@, name), span))
        } else {
            match expression_read(source, next) {
                Ok((expr, next)) => match expr_value_here(st, expr) {
                    Ok(value) => line_finished(
                        State { labels: st.labels.with_global(name, value), ..st },
                        source,
                        next,
                    ),
                    Err(failure) => stopped(st, next, failure),
                },
                Err(failure) => stopped(st, next, failure),
            }
        },
        (next, Err(failure)) => stopped(st, next, failure),
    }
}

/// Reads a global label: a name and a colon. It stands for the current address.
pub open spec fn global_label_parsed(st: State, source: Source, pos: int) -> Reached {
    match named_read(source, pos, ":"@) {
        (next, Ok((name, span))) => if st.labels.global(name) is Some {
            stopped(st, next, error_at(quoted("duplicate global label `"@, name), span))
        } else {
            line_finished(
                State {
                    labels: st.labels.with_global(name, address_value(st.cur_address)),
                    ..st
                },
                source,
                next,
            )
        },
        (next, Err(failure)) => stopped(st, next, failure),
    }
}

/// Reads a local label: an apostrophe, a name and a colon. It stands for the current address
/// within the current context.
pub open spec fn local_label_parsed(st: State, source: Source, pos: int) -> Reached {
    match operator_read(source, pos, "'"@) {
        Ok(next) => match named_read(source, next, ":"@) {
            (next, Ok((name, span))) => {
                let ctx = current_context(st);
                if st.labels.local(ctx, name) is Some {
                    stopped(st, next, error_at(quoted("duplicate local label `"@, name), span))
                } else {
                    line_finished(
                        State {
                            labels: st.labels.with_local(ctx, name, address_value(st.cur_address)),
                            ..st
                        },
                        source,
                        next,
                    )
                }
            },
            (next, Err(failure)) => stopped(st, next, failure),
        },
        Err(failure) => stopped(st, pos, failure),
    }
}

/// Whether an expression is accepted as the argument for a parameter: its value may be unknown
/// only where the parameter allows that, and otherwise has to meet the parameter's constraint.
pub open spec fn argument_accepted(st: State, rule: Rule, param: int, expr: Expression) -> Outcome<
    bool,
> {
    let ctx = current_context(st);
    if rule.parameters@[param].allow_unresolved {
        Ok(true)
    } else if !expr_resolvable(st.labels, expr, ctx) {
        Ok(false)
    } else {
        match rule.parameters@[param].constraint {
            None => Ok(true),
            Some(constraint) => match expr_value(st.labels, expr, ctx, st.cur_address) {
                Ok(value) => constraint_checked(constraint, value, st.cur_address),
                Err(failure) => Err(failure),
            },
        }
    }
}

/// Matches the parts of a pattern, from number `k` on, with what stands at a position: the
/// arguments, those of the parts before first. There is no match where a word or an operator is
/// missing or an argument is not accepted; reading ends there.
pub open spec fn segments_matched(
    st: State,
    source: Source,
    rule: Rule,
    k: int,
    pos: int,
    arguments: Seq<Expression>,
) -> Read<Option<Seq<Expression>>>
    decreases rule.pattern_segments@.len() - k,
{
    if 0 <= k < rule.pattern_segments@.len() {
        match rule.pattern_segments@[k] {
            PatternSegment::Exact(chars) => if source.token_at(pos).spec_identifier() == Some(
                chars@,
            ) || source.token_at(pos).spec_is_operator(chars@) {
                segments_matched(st, source, rule, k + 1, pos + 1, arguments)
            } else {
                (pos, Ok(None))
            },
            PatternSegment::Parameter(param) => match expression_read(source, pos) {
                Ok((expr, next)) => match argument_accepted(st, rule, param as int, expr) {
                    Ok(true) => segments_matched(
                        st,
                        source,
                        rule,
                        k + 1,
                        next,
                        arguments.push(expr),
                    ),
                    Ok(false) => (next, Ok(None)),
                    Err(failure) => (next, Err(failure)),
                },
                Err(failure) => (pos, Err(failure)),
            },
        }
    } else {
        (pos, Ok(Some(arguments)))
    }
}

/// Tries a rule on what stands at a position: the instruction, if the rule matches.
pub open spec fn rule_matched(
    def: Definition,
    st: State,
    source: Source,
    pos: int,
    rule_index: usize,
) -> Read<Option<InstructionView>> {
    match segments_matched(
        st,
        source,
        def.rules@[rule_index as int],
        0,
        pos,
        Seq::empty(),
    ) {
        (next, Ok(Some(arguments))) => (
            next,
            Ok(
                Some(
                    InstructionView {
                        rule_index,
                        label_ctx: current_context(st),
                        address: st.cur_address,
                        output: st.cur_output,
                        arguments,
                    },
                ),
            ),
        ),
        (next, Ok(None)) => (next, Ok(None)),
        (next, Err(failure)) => (next, Err(failure)),
    }
}

/// Tries the rules from number `k` on, one after the other. The first match whose arguments are
/// all known ends the search; without one, the last match is taken, which is `best` where no
/// further rule matches. With the instruction comes the position behind it.
pub open spec fn rule_selected(
    def: Definition,
    st: State,
    source: Source,
    pos: int,
    k: int,
    best: Option<(InstructionView, int)>,
) -> Outcome<Option<(InstructionView, int)>>
    decreases def.rules@.len() - k,
{
    if 0 <= k < def.rules@.len() {
        match rule_matched(def, st, source, pos, k as usize) {
            (next, Ok(Some(instr))) => if instruction_resolvable(st.labels, instr) {
                Ok(Some((instr, next)))
            } else {
                rule_selected(def, st, source, pos, k + 1, Some((instr, next)))
            },
            (_, Ok(None)) => rule_selected(def, st, source, pos, k + 1, best),
            (_, Err(failure)) => Err(failure),
        }
    } else {
        Ok(best)
    }
}

/// Reads an instruction. Nothing is read where no rule is taken.
pub open spec fn instruction_parsed(
    def: Definition,
    st: State,
    source: Source,
    pos: int,
) -> Reached {
    match rule_selected(def, st, source, pos, 0, None) {
        Ok(Some((instr, next))) => match instruction_output(def, st, instr) {
            (st, Ok(_)) => line_finished(st, source, next),
            (st, Err(failure)) => stopped(st, next, failure),
        },
        Ok(None) => stopped(
            st,
            pos,
            error_at("no match found for instruction"@, source.token_at(pos).span),
        ),
        Err(failure) => stopped(st, pos, failure),
    }
}

/// The width that a directive asks for, if it is a data directive: a `d` and a number.
pub open spec fn data_directive_width(directive: Seq<char>) -> Option<usize> {
    if directive.len() > 0 && directive[0] == 'd' {
        decimal_number(directive.skip(1))
    } else {
        None
    }
}

/// The number that the expression at a position stands for.
pub open spec fn number_read(st: State, source: Source, pos: int) -> Read<usize> {
    match expression_read(source, pos) {
        Ok((expr, next)) => match expr_value_here(st, expr) {
            Ok(value) => (next, integer_extracted(value, expr.span)),
            Err(failure) => (next, Err(failure)),
        },
        Err(failure) => (pos, Err(failure)),
    }
}

/// Keeps room for a number of addresses free.
pub open spec fn reserved(def: Definition, st: State, count: usize) -> Step {
    if def.align_bits * count <= usize::MAX {
        advanced(def, st, def.align_bits * count)
    } else {
        (st, Err(FailureView::Overflow))
    }
}

/// Reads a dot and the name of a directive: the name and its place.
pub open spec fn directive_name_read(source: Source, pos: int) -> Read<(Seq<char>, Span)> {
    match operator_read(source, pos, "."@) {
        Ok(next) => match identifier_read(source, next) {
            Ok((name, span, next)) => (next, Ok((name, span))),
            Err(failure) => (next, Err(failure)),
        },
        Err(failure) => (pos, Err(failure)),
    }
}

/// Reads a directive: a dot, its name, and what the name asks for. `depth` further files may be
/// nested in this one.
pub open spec fn directive_parsed(
    def: Definition,
    files: IncludedFiles,
    st: State,
    source: Source,
    pos: int,
    depth: nat,
) -> Reached
    decreases depth, source.tokens@.len() - pos, 0int,
{
    match directive_name_read(source, pos) {
        (next, Ok((directive, span))) => match data_directive_width(directive) {
            Some(width) => if width as int % def.align_bits as int != 0 {
                stopped(
                    st,
                    next,
                    error_at(
                        "data directive is not aligned to `"@ + decimal_text(
                            def.align_bits as nat,
                        ) + "` bits"@,
                        span,
                    ),
                )
            } else if width > 63 {
                stopped(
                    st,
                    next,
                    error_at("data directive bit width is currently not supported"@, span),
                )
            } else {
                data_parsed(def, st, source, next, width)
            },
            None => if directive == "address"@ {
                match number_read(st, source, next) {
                    (next, Ok(number)) => line_finished(
                        State { cur_address: number, ..st },
                        source,
                        next,
                    ),
                    (next, Err(failure)) => stopped(st, next, failure),
                }
            } else if directive == "output"@ {
                match number_read(st, source, next) {
                    (next, Ok(number)) => line_finished(
                        State { cur_output: number, ..st },
                        source,
                        next,
                    ),
                    (next, Err(failure)) => stopped(st, next, failure),
                }
            } else if directive == "res"@ {
                match number_read(st, source, next) {
                    (next, Ok(number)) => match reserved(def, st, number) {
                        (st, Ok(_)) => line_finished(st, source, next),
                        (st, Err(failure)) => stopped(st, next, failure),
                    },
                    (next, Err(failure)) => stopped(st, next, failure),
                }
            } else if directive == "include"@ {
                match string_read(source, next) {
                    Ok((name, next)) => match files.found(source.filename@, name, 0) {
                        Some(nested) => if depth == 0 {
                            stopped(st, next, FailureView::TooDeep)
                        } else {
                            match lines_parsed(
                                def,
                                files,
                                st,
                                nested,
                                file_start(nested),
                                (depth - 1) as nat,
                            ) {
                                (st, Ok(_)) => line_finished(st, source, next),
                                (st, Err(failure)) => stopped(st, next, failure),
                            }
                        },
                        None => stopped(
                            st,
                            next,
                            FailureView::MissingFile { from: source.filename@, name },
                        ),
                    },
                    Err(failure) => stopped(st, next, failure),
                }
            } else if directive == "includebin"@ {
                match string_read(source, next) {
                    Ok((_, next)) => line_finished(st, source, next),
                    Err(failure) => stopped(st, next, failure),
                }
            } else {
                stopped(st, next, error_at(quoted("unknown directive `"@, directive), span))
            },
        },
        (next, Err(failure)) => stopped(st, next, failure),
    }
}

/// Reads one line: a directive, a constant, a label or an instruction.
pub open spec fn line_parsed(
    def: Definition,
    files: IncludedFiles,
    st: State,
    source: Source,
    pos: int,
    depth: nat,
) -> Reached
    decreases depth, source.tokens@.len() - pos, 1int,
{
    if source.token_at(pos).spec_is_operator("."@) {
        directive_parsed(def, files, st, source, pos, depth)
    } else if source.token_at(pos).spec_identifier() is Some && source.token_at(
        pos + 1,
    ).spec_is_operator("="@) {
        constant_parsed(st, source, pos)
    } else if source.token_at(pos).spec_identifier() is Some && source.token_at(
        pos + 1,
    ).spec_is_operator(":"@) {
        global_label_parsed(st, source, pos)
    } else if source.token_at(pos).spec_is_operator("'"@) && source.token_at(
        pos + 1,
    ).spec_identifier() is Some && source.token_at(pos + 2).spec_is_operator(":"@) {
        local_label_parsed(st, source, pos)
    } else {
        instruction_parsed(def, st, source, pos)
    }
}

/// Reads all lines of a file from a position on. A line takes up at least one token. The first
/// line that fails is the last one that is read.
pub open spec fn lines_parsed(
    def: Definition,
    files: IncludedFiles,
    st: State,
    source: Source,
    pos: int,
    depth: nat,
) -> Step
    decreases depth, source.tokens@.len() - pos, 2int,
{
    if pos < source.tokens@.len() {
        let line = line_parsed(def, files, st, source, pos, depth);
        match line.result {
            Ok(_) => if pos < line.pos <= source.tokens@.len() {
                lines_parsed(def, files, line.st, source, line.pos, depth)
            } else {
                arbitrary()
            },
            Err(failure) => (line.st, Err(failure)),
        }
    } else {
        (st, Ok(()))
    }
}

// ---- Second pass ----

/// Writes the instructions that were left over, from number `k` on.
pub open spec fn instructions_completed(
    def: Definition,
    st: State,
    instrs: Seq<InstructionView>,
    k: int,
) -> Step
    decreases instrs.len() - k,
{
    if 0 <= k < instrs.len() {
        match instruction_resolved(def, st, instrs[k]) {
            (st, Ok(_)) => instructions_completed(def, st, instrs, k + 1),
            (st, Err(failure)) => (st, Err(failure)),
        }
    } else {
        (st, Ok(()))
    }
}

/// Writes an expression of a data directive that was left over.
pub open spec fn expression_completed(
    def: Definition,
    st: State,
    pending: UnresolvedExpression,
) -> Step {
    match expr_value(st.labels, pending.expr, pending.label_ctx, pending.address) {
        Ok(ExpressionValue::Integer(integer)) => match data_piece(integer, pending.data_width) {
            Ok(piece) => written_at(def, st, pending.output as int, piece),
            Err(failure) => (st, Err(failure)),
        },
        Ok(_) => (st, Err(error_at("invalid expression"@, pending.expr.span))),
        Err(failure) => (st, Err(failure)),
    }
}

/// Writes the expressions of data directives that were left over, from number `k` on.
pub open spec fn expressions_completed(
    def: Definition,
    st: State,
    exprs: Seq<UnresolvedExpression>,
    k: int,
) -> Step
    decreases exprs.len() - k,
{
    if 0 <= k < exprs.len() {
        match expression_completed(def, st, exprs[k]) {
            (st, Ok(_)) => expressions_completed(def, st, exprs, k + 1),
            (st, Err(failure)) => (st, Err(failure)),
        }
    } else {
        (st, Ok(()))
    }
}

/// What the second pass makes of the state that the first one ends in: it takes up all that was
/// left over, the instructions first, each in the order in which it appeared.
pub open spec fn completed(def: Definition, st: State) -> Step {
    match instructions_completed(
        def,
        State { unresolved_instructions: Seq::empty(), ..st },
        st.unresolved_instructions,
        0,
    ) {
        (done, Ok(_)) => expressions_completed(
            def,
            State { unresolved_expressions: Seq::empty(), ..done },
            st.unresolved_expressions,
            0,
        ),
        (done, Err(failure)) => (done, Err(failure)),
    }
}

/// What the first pass makes of a program.
pub open spec fn first_pass(def: Definition, source: Source, files: IncludedFiles) -> Step {
    lines_parsed(
        def,
        files,
        initial_state(),
        source,
        file_start(source),
        files.max_depth as nat,
    )
}

/// The bits that a program stands for.
pub open spec fn assembled(def: Definition, source: Source, files: IncludedFiles) -> Outcome<
    Seq<bool>,
> {
    match first_pass(def, source, files) {
        (st, Ok(_)) => match completed(def, st) {
            (done, Ok(_)) => Ok(done.output_bits),
            (_, Err(failure)) => Err(failure),
        },
        (_, Err(failure)) => Err(failure),
    }
}

} // verus!
