//! What values have to be like, and what is seen of them.

use vstd::prelude::*;
use crate::assembler::{instruction_wf, state_wf, Assembler, Instruction};
use crate::definition::Definition;
use crate::error::{outcome, Error, ErrorView, Failure, FailureView, Span};
use crate::expr::{all_names, ExpressionValue};
use crate::label::{LabelContext, Labels};
use crate::model::{InstructionView, Reached, State, Step};
use crate::parser::Parser;
use crate::rule::{argument_count, constraint_names, production_names, PatternSegment, Rule};
use crate::source::{IncludedFiles, ParsedExpression, Source};

verus! {

/// A file can be read where its end is marked, there is an answer for each position and for the one
/// behind the last token, and no expression reaches beyond the last token. Nothing else is asked.
pub proof fn file_can_be_read(source: Source)
    ensures
        source.wf() <==> {
            &&& source.end.kind is End
            &&& source.expressions@.len() == source.tokens@.len() + 1
            &&& source.tokens@.len() < usize::MAX
            &&& forall|i: int|
                0 <= i <= source.tokens@.len() ==> (#[trigger] source.expressions@[i] matches
                    ParsedExpression::Parsed { length, .. } ==> i + length
                    <= source.tokens@.len())
        },
{
}

/// Files can be read where each of them can.
pub proof fn files_can_be_read(files: IncludedFiles)
    ensures
        files.wf() <==> (forall|i: int|
            0 <= i < files.files@.len() ==> (#[trigger] files.files@[i]).source.wf()),
{
}

/// A rule can be used where an instruction fills up addresses, the parameters in its pattern exist
/// and have constraints that can be checked, where these are looked at on the spot, and its
/// productions mention only what they may mention. Nothing else is asked.
pub proof fn rule_can_be_used(rule: Rule, align_bits: usize)
    requires
        align_bits > 0,
    ensures
        rule.wf(align_bits) <==> {
            &&& rule.production_bit_num as int % align_bits as int == 0
            &&& forall|i: int, param: usize|
                #![trigger rule.pattern_segments@[i], rule.parameters@[param as int]]
                0 <= i < rule.pattern_segments@.len() && rule.pattern_segments@[i]
                    == PatternSegment::Parameter(param) ==> param < rule.parameters@.len() && (
                rule.parameters@[param as int].allow_unresolved || (
                rule.parameters@[param as int].constraint matches Some(constraint) ==> all_names(
                    constraint,
                    constraint_names(),
                )))
            &&& forall|i: int|
                0 <= i < rule.production_segments@.len() ==> all_names(
                    #[trigger] rule.production_segments@[i],
                    production_names(rule),
                )
        },
{
    if rule.wf(align_bits) {
        assert forall|i: int, param: usize|
            #![trigger rule.pattern_segments@[i], rule.parameters@[param as int]]
            0 <= i < rule.pattern_segments@.len() && rule.pattern_segments@[i]
                == PatternSegment::Parameter(param) implies param < rule.parameters@.len() && (
        rule.parameters@[param as int].allow_unresolved || (
        rule.parameters@[param as int].constraint matches Some(constraint) ==> all_names(
            constraint,
            constraint_names(),
        ))) by {
            assert(rule.can_take(param as int));
        }
    }
    if forall|i: int, param: usize|
        #![trigger rule.pattern_segments@[i], rule.parameters@[param as int]]
        0 <= i < rule.pattern_segments@.len() && rule.pattern_segments@[i]
            == PatternSegment::Parameter(param) ==> param < rule.parameters@.len() && (
        rule.parameters@[param as int].allow_unresolved || (
        rule.parameters@[param as int].constraint matches Some(constraint) ==> all_names(
            constraint,
            constraint_names(),
        ))) {
        assert forall|i: int| 0 <= i < rule.pattern_segments@.len() implies (
        #[trigger] rule.pattern_segments@[i] matches PatternSegment::Parameter(param)
            ==> rule.can_take(param as int)) by {
            match rule.pattern_segments@[i] {
                PatternSegment::Parameter(param) => {
                    let parameter = rule.parameters@[param as int];
                },
                PatternSegment::Exact(_) => {},
            }
        }
    }
}

/// A definition can be used where an address stands for some bits and each rule can be used.
pub proof fn definition_can_be_used(def: Definition)
    ensures
        def.wf() <==> def.align_bits > 0 && (forall|i: int|
            0 <= i < def.rules@.len() ==> (#[trigger] def.rules@[i]).wf(def.align_bits)),
{
}

/// An assembler is at work properly where there is a context, and what waits belongs to rules and
/// has the arguments that these take.
pub proof fn state_is_proper(def: Definition, st: State)
    ensures
        st.labels.wf() <==> 0 < st.labels.locals.len() <= usize::MAX,
        state_wf(def, st) <==> st.labels.wf() && (forall|i: int|
            0 <= i < st.unresolved_instructions.len() ==> instruction_wf(
                def,
                #[trigger] st.unresolved_instructions[i],
            )),
{
}

/// An instruction is proper where it belongs to a rule and has the arguments that it takes.
pub proof fn instruction_is_proper(def: Definition, instr: InstructionView)
    ensures
        instruction_wf(def, instr) <==> {
            let segments = def.rules@[instr.rule_index as int].pattern_segments@;
            &&& instr.rule_index < def.rules@.len()
            &&& argument_count(segments, segments.len() as int) <= instr.arguments.len()
        },
{
}

/// Labels hold what was put in: at first nothing; a global one its value, and a new context with no
/// local labels; a local one its value, in the context that it was put in. Everything else stays.
pub proof fn labels_hold_what_was_put_in(
    labels: Labels,
    ctx: LabelContext,
    name: Seq<char>,
    value: ExpressionValue,
)
    requires
        ctx.index < labels.locals.len(),
    ensures
        Labels::none().globals == Map::<Seq<char>, ExpressionValue>::empty(),
        Labels::none().locals == seq![Map::<Seq<char>, ExpressionValue>::empty()],
        labels.cur_context() == labels.locals.len() - 1,
        labels.global(name) == (if labels.globals.dom().contains(name) {
            Some(labels.globals[name])
        } else {
            None
        }),
        labels.local(ctx, name) == (if labels.locals[ctx.index as int].dom().contains(name) {
            Some(labels.locals[ctx.index as int][name])
        } else {
            None
        }),
        labels.with_global(name, value).globals == labels.globals.insert(name, value),
        labels.with_global(name, value).locals == labels.locals.push(Map::empty()),
        labels.with_local(ctx, name, value).globals == labels.globals,
        labels.with_local(ctx, name, value).locals == labels.locals.update(
            ctx.index as int,
            labels.locals[ctx.index as int].insert(name, value),
        ),
{
}

/// There are no local labels in a context that there is not.
pub proof fn missing_context_has_no_labels(labels: Labels, ctx: LabelContext, name: Seq<char>)
    requires
        ctx.index >= labels.locals.len(),
    ensures
        labels.local(ctx, name) is None,
{
}

/// What is seen of a failure is what it holds.
pub proof fn failures_show_what_they_hold(message: String, span: Span, from: String, name: String)
    ensures
        (Error { message, span })@ == (ErrorView { message: message@, span }),
        Failure::Error(Error { message, span })@ == FailureView::Error(
            ErrorView { message: message@, span },
        ),
        (Failure::MissingFile { from, name })@ == (FailureView::MissingFile {
            from: from@,
            name: name@,
        }),
        Failure::TooDeep@ == FailureView::TooDeep,
        Failure::Overflow@ == FailureView::Overflow,
{
}

/// The outcome of what is done is its result, with what is seen of the failure.
pub proof fn outcomes_show_results<T>(r: Result<T, Failure>)
    ensures
        match r {
            Ok(value) => outcome(r) == Ok::<T, FailureView>(value),
            Err(failure) => outcome(r) == Err::<T, FailureView>(failure@),
        },
{
}

/// What is seen of an assembler and of an instruction are their parts.
pub proof fn assembler_shows_its_parts(assembler: Assembler, instr: Instruction, i: int)
    ensures
        assembler@.cur_address == assembler.cur_address,
        assembler@.cur_output == assembler.cur_output,
        assembler@.labels == assembler.labels@,
        assembler@.unresolved_instructions.len() == assembler.unresolved_instructions@.len(),
        0 <= i < assembler.unresolved_instructions@.len() ==> assembler@.unresolved_instructions[i]
            == assembler.unresolved_instructions@[i]@,
        assembler@.unresolved_expressions == assembler.unresolved_expressions@,
        assembler@.output_bits == assembler.output_bits@,
        instr@ == (InstructionView {
            rule_index: instr.rule_index,
            label_ctx: instr.label_ctx,
            address: instr.address,
            output: instr.output,
            arguments: instr.arguments@,
        }),
{
}

/// An assembler that is said to have gone over to a state is in that state, with the definition
/// that it had before, and reports what it is said to report.
pub proof fn assembler_is_where_it_went<'a>(
    before: Assembler<'a>,
    after: Assembler<'a>,
    r: Result<(), Failure>,
    expected: Step,
)
    ensures
        after.became(before, r, expected) <==> {
            &&& after@ == expected.0
            &&& after.def == before.def
            &&& after.def.wf()
            &&& state_wf(*after.def, after@)
            &&& outcome(r) == expected.1
        },
{
}

/// The same holds where it read something; then the parser is at the position that it is said to be
/// at, in the file that it was in before.
pub proof fn assembler_is_where_it_read<'a>(
    before: Assembler<'a>,
    after: Assembler<'a>,
    parser_before: Parser,
    parser: Parser,
    r: Result<(), Failure>,
    expected: Reached,
)
    ensures
        after.arrived(before, parser, parser_before, r, expected) ==> {
            &&& after@ == expected.st
            &&& after.def == before.def
            &&& after.wf()
            &&& parser.source == parser_before.source
            &&& parser.source.wf()
            &&& parser.index == expected.pos
            &&& parser_before.index <= parser.index <= parser.source.tokens@.len()
            &&& outcome(r) == expected.result
        },
{
}

} // verus!
