//! Which rule an instruction gets, and what its arguments satisfy.

use vstd::prelude::*;
use crate::assembler::instruction_wf;
use crate::definition::Definition;
use crate::error::{FailureView, Outcome};
use crate::expr::{all_names, Expression, ExpressionKind, ExpressionName};
use crate::label::Labels;
use crate::model::{
    constraint_checked,
    expr_value,
    instruction_resolvable,
    production_env,
    production_value,
    rule_matched,
    rule_selected,
    segments_matched,
    InstructionView,
    Read,
    State,
};
use crate::parser::expression_read;
use crate::rule::{argument_count, production_names, PatternSegment, Rule};
use crate::source::Source;

verus! {

/// An argument that makes its way into the output meets the constraint of its parameter: where a
/// piece of a production has a value, the constraint of every parameter in it is true of the
/// argument.
pub proof fn emitted_arguments_meet_constraints(
    labels: Labels,
    rule: Rule,
    instr: InstructionView,
    expr: Expression,
)
    requires
        all_names(expr, production_names(rule)),
        production_value(labels, rule, instr, expr) is Ok,
    ensures
        all_names(expr, |name: ExpressionName| parameter_is_met(labels, rule, instr, name)),
    decreases expr,
{
    match expr.kind {
        ExpressionKind::Literal(_) => {},
        ExpressionKind::Variable(name) => {
            assert(production_env(labels, rule, instr)(name, expr.span) is Ok);
        },
        ExpressionKind::Unary(_, x) => {
            emitted_arguments_meet_constraints(labels, rule, instr, *x);
        },
        ExpressionKind::Binary(_, x, y) => {
            emitted_arguments_meet_constraints(labels, rule, instr, *x);
            emitted_arguments_meet_constraints(labels, rule, instr, *y);
        },
        ExpressionKind::Slice(x, _, _) => {
            emitted_arguments_meet_constraints(labels, rule, instr, *x);
        },
    }
}

/// The name is the program counter, or a parameter whose argument has a value that meets the
/// parameter's constraint.
pub open spec fn parameter_is_met(
    labels: Labels,
    rule: Rule,
    instr: InstructionView,
    name: ExpressionName,
) -> bool {
    name matches ExpressionName::GlobalVariable(text) && (text@ == "pc"@ || {
        let param = rule.parameter_index(text@, 0).unwrap();
        let value = expr_value(labels, instr.arguments[param], instr.label_ctx, instr.address);
        &&& value is Ok
        &&& rule.parameters@[param].constraint matches Some(constraint) ==> constraint_checked(
            constraint,
            value->Ok_0,
            instr.address,
        ) == Ok::<bool, FailureView>(true)
    })
}

/// Which rule an instruction gets. It is a rule that matches. Either its arguments are all known,
/// and no earlier rule matches with arguments that are all known; or no rule matches with
/// arguments that are all known, and no later rule matches at all.
pub proof fn rule_choice(def: Definition, st: State, source: Source, pos: int, i: int)
    requires
        0 <= i < def.rules@.len(),
    ensures
        rule_selected(def, st, source, pos, 0, None) matches Ok(Some(found)) ==> {
            let chosen = found.0.rule_index;
            let other = rule_matched(def, st, source, pos, i as usize).1;
            &&& chosen < def.rules@.len()
            &&& is_match(rule_matched(def, st, source, pos, chosen), found)
            &&& instruction_resolvable(st.labels, found.0) && i < chosen ==> !matches_known(
                st.labels,
                other,
            )
            &&& !instruction_resolvable(st.labels, found.0) ==> !matches_known(st.labels, other)
            &&& !instruction_resolvable(st.labels, found.0) && i > chosen ==> other == Ok::<
                Option<InstructionView>,
                FailureView,
            >(None)
        },
        rule_selected(def, st, source, pos, 0, None) matches Ok(None) ==> rule_matched(
            def,
            st,
            source,
            pos,
            i as usize,
        ).1 == Ok::<Option<InstructionView>, FailureView>(None),
{
    lemma_rule_choice(def, st, source, pos, 0, None, i);
}

/// A rule matches with arguments that are all known.
pub open spec fn matches_known(
    labels: Labels,
    matched: Outcome<Option<InstructionView>>,
) -> bool {
    matched matches Ok(Some(instr)) && instruction_resolvable(labels, instr)
}

/// A rule matches, with the given instruction and the position behind it.
pub open spec fn is_match(
    matched: Read<Option<InstructionView>>,
    found: (InstructionView, int),
) -> bool {
    matched.1 == Ok::<Option<InstructionView>, FailureView>(Some(found.0)) && matched.0 == found.1
}

proof fn lemma_rule_choice(
    def: Definition,
    st: State,
    source: Source,
    pos: int,
    k: int,
    best: Option<(InstructionView, int)>,
    i: int,
)
    requires
        0 <= i < def.rules@.len(),
        0 <= k <= def.rules@.len(),
        best matches Some(found) ==> {
            &&& found.0.rule_index < k
            &&& is_match(rule_matched(def, st, source, pos, found.0.rule_index), found)
            &&& !instruction_resolvable(st.labels, found.0)
            &&& found.0.rule_index < i < k ==> rule_matched(def, st, source, pos, i as usize).1
                == Ok::<Option<InstructionView>, FailureView>(None)
        },
        i < k ==> !matches_known(st.labels, rule_matched(def, st, source, pos, i as usize).1),
        i < k && best is None ==> rule_matched(def, st, source, pos, i as usize).1 == Ok::<
            Option<InstructionView>,
            FailureView,
        >(None),
    ensures
        rule_selected(def, st, source, pos, k, best) matches Ok(Some(found)) ==> {
            let chosen = found.0.rule_index;
            let other = rule_matched(def, st, source, pos, i as usize).1;
            &&& chosen < def.rules@.len()
            &&& is_match(rule_matched(def, st, source, pos, chosen), found)
            &&& instruction_resolvable(st.labels, found.0) && i < chosen ==> !matches_known(
                st.labels,
                other,
            )
            &&& !instruction_resolvable(st.labels, found.0) ==> !matches_known(st.labels, other)
            &&& !instruction_resolvable(st.labels, found.0) && i > chosen ==> other == Ok::<
                Option<InstructionView>,
                FailureView,
            >(None)
        },
        rule_selected(def, st, source, pos, k, best) matches Ok(None) ==> rule_matched(
            def,
            st,
            source,
            pos,
            i as usize,
        ).1 == Ok::<Option<InstructionView>, FailureView>(None),
    decreases def.rules@.len() - k,
{
    if k < def.rules@.len() {
        assert(def.rules.len() == def.rules@.len());
        match rule_matched(def, st, source, pos, k as usize) {
            (next, Ok(Some(instr))) => {
                if !instruction_resolvable(st.labels, instr) {
                    lemma_rule_choice(def, st, source, pos, k + 1, Some((instr, next)), i);
                }
            },
            (_, Ok(None)) => {
                lemma_rule_choice(def, st, source, pos, k + 1, best, i);
            },
            (_, Err(_)) => {},
        }
    }
}

proof fn lemma_segments_arguments(
    st: State,
    source: Source,
    rule: Rule,
    k: int,
    pos: int,
    arguments: Seq<Expression>,
)
    requires
        0 <= k <= rule.pattern_segments@.len(),
        arguments.len() == argument_count(rule.pattern_segments@, k),
    ensures
        segments_matched(st, source, rule, k, pos, arguments).1 matches Ok(Some(found))
            ==> found.len() == argument_count(
            rule.pattern_segments@,
            rule.pattern_segments@.len() as int,
        ),
    decreases rule.pattern_segments@.len() - k,
{
    if k < rule.pattern_segments@.len() {
        match rule.pattern_segments@[k] {
            PatternSegment::Exact(_) => {
                lemma_segments_arguments(st, source, rule, k + 1, pos + 1, arguments);
            },
            PatternSegment::Parameter(_) => {
                match expression_read(source, pos) {
                    Ok((expr, next)) => {
                        lemma_segments_arguments(
                            st,
                            source,
                            rule,
                            k + 1,
                            next,
                            arguments.push(expr),
                        );
                    },
                    Err(_) => {},
                }
            },
        }
    }
}

/// An instruction that is read has the arguments that the pattern of its rule takes.
pub proof fn selected_instruction_is_complete(def: Definition, st: State, source: Source, pos: int)
    requires
        def.wf(),
    ensures
        rule_selected(def, st, source, pos, 0, None) matches Ok(Some((instr, _)))
            ==> instruction_wf(def, instr),
{
    if def.rules@.len() > 0 {
        rule_choice(def, st, source, pos, 0);
    }
    match rule_selected(def, st, source, pos, 0, None) {
        Ok(Some((instr, _))) => {
            let rule = def.rules@[instr.rule_index as int];
            assert(rule.wf(def.align_bits));
            lemma_segments_arguments(st, source, rule, 0, pos, Seq::empty());
        },
        _ => {},
    }
}

} // verus!
