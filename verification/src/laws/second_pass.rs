//! What the second pass makes of what is left over.

use vstd::prelude::*;
use crate::assembler::UnresolvedExpression;
use crate::definition::Definition;
use crate::error::FailureView;
use crate::expr::ExpressionValue;
use crate::label::Labels;
use crate::laws::lines::pieces_change_output_only;
use crate::model::{
    assembled,
    completed,
    expr_value,
    expression_completed,
    expressions_completed,
    first_pass,
    instruction_resolved,
    instructions_completed,
    pieces_written,
    production_value,
    written_at,
    InstructionView,
    State,
};
use crate::source::{IncludedFiles, Source};

verus! {

/// The second pass resolves all that was left over: where it succeeds, every data expression has an
/// integer value, and so has every piece of every instruction. Whether or not it succeeds, it
/// writes output without changing labels, address or output position.
pub proof fn second_pass_resolves_everything(def: Definition, st: State)
    ensures
        completed(def, st).0.labels == st.labels,
        completed(def, st).0.cur_address == st.cur_address,
        completed(def, st).0.cur_output == st.cur_output,
        completed(def, st).1 is Ok ==> {
            &&& forall|i: int|
                0 <= i < st.unresolved_instructions.len() ==> #[trigger] instruction_has_bits(
                    def,
                    st.labels,
                    st.unresolved_instructions[i],
                )
            &&& forall|i: int|
                0 <= i < st.unresolved_expressions.len() ==> has_integer_value(
                    st.labels,
                    #[trigger] st.unresolved_expressions[i],
                )
        },
{
    let emptied = State { unresolved_instructions: Seq::empty(), ..st };
    lemma_instructions_completed(def, emptied, st.unresolved_instructions, 0);
    let done = instructions_completed(def, emptied, st.unresolved_instructions, 0).0;
    lemma_expressions_completed(
        def,
        State { unresolved_expressions: Seq::empty(), ..done },
        st.unresolved_expressions,
        0,
    );
}

/// The value of a data expression that was left over is an integer.
pub open spec fn has_integer_value(labels: Labels, pending: UnresolvedExpression) -> bool {
    expr_value(labels, pending.expr, pending.label_ctx, pending.address) matches Ok(value)
        && value is Integer
}

/// The values of all pieces of an instruction are integers.
pub open spec fn instruction_has_bits(def: Definition, labels: Labels, instr: InstructionView) -> bool {
    let rule = def.rules@[instr.rule_index as int];
    forall|k: int|
        0 <= k < rule.production_segments@.len() ==> (production_value(
            labels,
            rule,
            instr,
            #[trigger] rule.production_segments@[k],
        ) matches Ok(value) && value is Integer)
}

proof fn lemma_pieces_have_bits(
    def: Definition,
    st: State,
    instr: InstructionView,
    k: int,
    width: int,
    i: int,
)
    requires
        0 <= k <= i < def.rules@[instr.rule_index as int].production_segments@.len(),
        pieces_written(def, st, instr, k, width).1 is Ok,
    ensures
        production_value(
            st.labels,
            def.rules@[instr.rule_index as int],
            instr,
            def.rules@[instr.rule_index as int].production_segments@[i],
        ) matches Ok(value) && value is Integer,
    decreases def.rules@[instr.rule_index as int].production_segments@.len() - k,
{
    let rule = def.rules@[instr.rule_index as int];
    if k < i {
        let integer = production_value(
            st.labels,
            rule,
            instr,
            rule.production_segments@[k],
        )->Ok_0->Integer_0;
        let next = written_at(def, st, instr.output + width, integer).0;
        lemma_pieces_have_bits(
            def,
            next,
            instr,
            k + 1,
            width + integer.width() as int / def.align_bits as int,
            i,
        );
    }
}

proof fn lemma_instructions_completed(
    def: Definition,
    st: State,
    instrs: Seq<InstructionView>,
    k: int,
)
    requires
        0 <= k,
    ensures
        ({
            let (after, result) = instructions_completed(def, st, instrs, k);
            &&& after == (State { output_bits: after.output_bits, ..st })
            &&& result is Ok ==> forall|i: int|
                k <= i < instrs.len() ==> #[trigger] instruction_has_bits(
                    def,
                    st.labels,
                    instrs[i],
                )
        }),
    decreases instrs.len() - k,
{
    if k < instrs.len() {
        pieces_change_output_only(def, st, instrs[k], 0, 0);
        let (next, result) = instruction_resolved(def, st, instrs[k]);
        if result is Ok {
            let rule = def.rules@[instrs[k].rule_index as int];
            assert forall|j: int| 0 <= j < rule.production_segments@.len() implies (
            production_value(
                st.labels,
                rule,
                instrs[k],
                #[trigger] rule.production_segments@[j],
            ) matches Ok(value) && value is Integer) by {
                lemma_pieces_have_bits(def, st, instrs[k], 0, 0, j);
            }
            assert(instruction_has_bits(def, st.labels, instrs[k]));
            lemma_instructions_completed(def, next, instrs, k + 1);
        }
    }
}

proof fn lemma_expressions_completed(
    def: Definition,
    st: State,
    exprs: Seq<UnresolvedExpression>,
    k: int,
)
    requires
        0 <= k,
    ensures
        ({
            let (after, result) = expressions_completed(def, st, exprs, k);
            &&& after == (State { output_bits: after.output_bits, ..st })
            &&& result is Ok ==> forall|i: int|
                k <= i < exprs.len() ==> has_integer_value(st.labels, #[trigger] exprs[i])
        }),
    decreases exprs.len() - k,
{
    if k < exprs.len() {
        lemma_expressions_completed(
            def,
            expression_completed(def, st, exprs[k]).0,
            exprs,
            k + 1,
        );
    }
}

// ---- The first failure ----

proof fn lemma_pieces_fail_alike(
    def: Definition,
    st: State,
    other: State,
    instr: InstructionView,
    k: int,
    width: int,
)
    requires
        st.labels == other.labels,
    ensures
        pieces_written(def, st, instr, k, width).1 == pieces_written(
            def,
            other,
            instr,
            k,
            width,
        ).1,
    decreases def.rules@[instr.rule_index as int].production_segments@.len() - k,
{
    let rule = def.rules@[instr.rule_index as int];
    if 0 <= k < rule.production_segments@.len() {
        match production_value(st.labels, rule, instr, rule.production_segments@[k]) {
            Ok(ExpressionValue::Integer(integer)) => {
                lemma_pieces_fail_alike(
                    def,
                    written_at(def, st, instr.output + width, integer).0,
                    written_at(def, other, instr.output + width, integer).0,
                    instr,
                    k + 1,
                    width + integer.width() as int / def.align_bits as int,
                );
            },
            _ => {},
        }
    }
}

/// Whether an instruction or a data expression can be written depends on the labels only, and not
/// on what was written before.
pub proof fn failure_depends_on_labels_only(
    def: Definition,
    st: State,
    other: State,
    instr: InstructionView,
    pending: UnresolvedExpression,
)
    requires
        st.labels == other.labels,
    ensures
        instruction_resolved(def, st, instr).1 == instruction_resolved(def, other, instr).1,
        expression_completed(def, st, pending).1 == expression_completed(def, other, pending).1,
{
    lemma_pieces_fail_alike(def, st, other, instr, 0, 0);
}

proof fn lemma_first_instruction(
    def: Definition,
    st: State,
    now: State,
    instrs: Seq<InstructionView>,
    k: int,
    i: int,
)
    requires
        0 <= k <= i <= instrs.len(),
        now.labels == st.labels,
        forall|j: int|
            k <= j < i ==> instruction_resolved(def, st, #[trigger] instrs[j]).1 is Ok,
        i < instrs.len() ==> instruction_resolved(def, st, instrs[i]).1 is Err,
    ensures
        instructions_completed(def, now, instrs, k).1 == (if i < instrs.len() {
            instruction_resolved(def, st, instrs[i]).1
        } else {
            Ok(())
        }),
        instructions_completed(def, now, instrs, k).0.labels == st.labels,
    decreases i - k,
{
    if k < instrs.len() {
        lemma_pieces_fail_alike(def, st, now, instrs[k], 0, 0);
        pieces_change_output_only(def, now, instrs[k], 0, 0);
        if k < i {
            assert(instruction_resolved(def, st, instrs[k]).1 is Ok);
            let next = instruction_resolved(def, now, instrs[k]).0;
            lemma_first_instruction(def, st, next, instrs, k + 1, i);
        }
    }
}

proof fn lemma_first_expression(
    def: Definition,
    st: State,
    now: State,
    exprs: Seq<UnresolvedExpression>,
    k: int,
    i: int,
)
    requires
        0 <= k <= i <= exprs.len(),
        now.labels == st.labels,
        forall|j: int|
            k <= j < i ==> expression_completed(def, st, #[trigger] exprs[j]).1 is Ok,
        i < exprs.len() ==> expression_completed(def, st, exprs[i]).1 is Err,
    ensures
        expressions_completed(def, now, exprs, k).1 == (if i < exprs.len() {
            expression_completed(def, st, exprs[i]).1
        } else {
            Ok(())
        }),
    decreases i - k,
{
    if k < exprs.len() {
        if k < i {
            assert(expression_completed(def, st, exprs[k]).1 is Ok);
            let next = expression_completed(def, now, exprs[k]).0;
            lemma_first_expression(def, st, next, exprs, k + 1, i);
        }
    }
}

/// Where an instruction that was left over fails, and none before it does, its failure is what
/// becomes of the whole program.
pub proof fn first_failing_instruction_is_reported(
    def: Definition,
    source: Source,
    files: IncludedFiles,
    i: int,
)
    requires
        first_pass(def, source, files).1 is Ok,
        ({
            let st = first_pass(def, source, files).0;
            let instrs = st.unresolved_instructions;
            &&& 0 <= i < instrs.len()
            &&& instruction_resolved(def, st, instrs[i]).1 is Err
            &&& forall|j: int|
                0 <= j < i ==> instruction_resolved(def, st, #[trigger] instrs[j]).1 is Ok
        }),
    ensures
        ({
            let st = first_pass(def, source, files).0;
            let failure = instruction_resolved(def, st, st.unresolved_instructions[i]).1->Err_0;
            assembled(def, source, files) == Err::<Seq<bool>, FailureView>(failure)
        }),
{
    let st = first_pass(def, source, files).0;
    let emptied = State { unresolved_instructions: Seq::empty(), ..st };
    lemma_first_instruction(def, st, emptied, st.unresolved_instructions, 0, i);
}

/// Where no instruction that was left over fails, but a data expression that was left over does,
/// and none before it, its failure is what becomes of the whole program.
pub proof fn first_failing_expression_is_reported(
    def: Definition,
    source: Source,
    files: IncludedFiles,
    i: int,
)
    requires
        first_pass(def, source, files).1 is Ok,
        ({
            let st = first_pass(def, source, files).0;
            let instrs = st.unresolved_instructions;
            let exprs = st.unresolved_expressions;
            &&& forall|j: int|
                0 <= j < instrs.len() ==> instruction_resolved(
                    def,
                    st,
                    #[trigger] instrs[j],
                ).1 is Ok
            &&& 0 <= i < exprs.len()
            &&& expression_completed(def, st, exprs[i]).1 is Err
            &&& forall|j: int|
                0 <= j < i ==> expression_completed(def, st, #[trigger] exprs[j]).1 is Ok
        }),
    ensures
        ({
            let st = first_pass(def, source, files).0;
            let failure = expression_completed(def, st, st.unresolved_expressions[i]).1->Err_0;
            assembled(def, source, files) == Err::<Seq<bool>, FailureView>(failure)
        }),
{
    let st = first_pass(def, source, files).0;
    let instrs = st.unresolved_instructions;
    let emptied = State { unresolved_instructions: Seq::empty(), ..st };
    lemma_first_instruction(def, st, emptied, instrs, 0, instrs.len() as int);
    let done = instructions_completed(def, emptied, instrs, 0).0;
    let drained = State { unresolved_expressions: Seq::empty(), ..done };
    lemma_first_expression(def, st, drained, st.unresolved_expressions, 0, i);
}

/// Where nothing that was left over fails, neither does the program.
pub proof fn second_pass_succeeds(def: Definition, source: Source, files: IncludedFiles)
    requires
        first_pass(def, source, files).1 is Ok,
        ({
            let st = first_pass(def, source, files).0;
            let instrs = st.unresolved_instructions;
            let exprs = st.unresolved_expressions;
            &&& forall|j: int|
                0 <= j < instrs.len() ==> instruction_resolved(
                    def,
                    st,
                    #[trigger] instrs[j],
                ).1 is Ok
            &&& forall|j: int|
                0 <= j < exprs.len() ==> expression_completed(def, st, #[trigger] exprs[j]).1 is Ok
        }),
    ensures
        assembled(def, source, files) is Ok,
{
    let st = first_pass(def, source, files).0;
    let instrs = st.unresolved_instructions;
    let exprs = st.unresolved_expressions;
    let emptied = State { unresolved_instructions: Seq::empty(), ..st };
    lemma_first_instruction(def, st, emptied, instrs, 0, instrs.len() as int);
    let done = instructions_completed(def, emptied, instrs, 0).0;
    let drained = State { unresolved_expressions: Seq::empty(), ..done };
    lemma_first_expression(def, st, drained, exprs, 0, exprs.len() as int);
}

} // verus!
