//! What it takes for a rule to match, and which rule is taken.

use vstd::prelude::*;
use crate::definition::Definition;
use crate::error::FailureView;
use crate::expr::Expression;
use crate::label::LabelContext;
use crate::laws::reading::{
    expression_stands,
    expressions_are_read_where_they_stand,
    identifiers_are_read_where_they_stand,
    operator_stands,
    operators_are_read_where_they_stand,
    word_stands,
};
use crate::laws::rules::{is_match, matches_known};
use crate::laws::values::says;
use crate::model::{
    argument_accepted,
    constraint_checked,
    expr_resolvable,
    expr_value,
    rule_matched,
    rule_selected,
    segments_matched,
    InstructionView,
    State,
};
use crate::rule::{argument_count, PatternSegment, Rule};
use crate::source::{ParsedExpression, Source};

verus! {

/// The latest context.
pub open spec fn latest_context(st: State) -> LabelContext {
    LabelContext { index: (st.labels.locals.len() - 1) as usize }
}

/// A rule takes an expression for a parameter: the parameter lets every value through before it is
/// known, or the value is known and the constraint, if there is one, is true of it.
pub open spec fn takes(st: State, rule: Rule, param: int, expr: Expression) -> bool {
    let parameter = rule.parameters@[param];
    let worth = expr_value(st.labels, expr, latest_context(st), st.cur_address);
    ||| parameter.allow_unresolved
    ||| expr_resolvable(st.labels, expr, latest_context(st)) && (parameter.constraint matches Some(
        constraint,
    ) ==> worth is Ok && constraint_checked(constraint, worth->Ok_0, st.cur_address) == Ok::<
        bool,
        FailureView,
    >(true))
}

/// Whether an argument is accepted: it is where the rule takes it, and the failure of its value or
/// of the constraint, where these are looked at, is what becomes of it.
pub proof fn accepted_arguments_are_taken(st: State, rule: Rule, param: int, expr: Expression)
    requires
        st.labels.wf(),
    ensures
        ({
            let accepted = argument_accepted(st, rule, param, expr);
            let parameter = rule.parameters@[param];
            let looked_at = !parameter.allow_unresolved && expr_resolvable(
                st.labels,
                expr,
                latest_context(st),
            );
            &&& accepted == Ok::<bool, FailureView>(true) <==> takes(st, rule, param, expr)
            &&& accepted is Err ==> looked_at && parameter.constraint is Some
            &&& looked_at ==> (parameter.constraint matches Some(constraint) ==> match expr_value(
                st.labels,
                expr,
                latest_context(st),
                st.cur_address,
            ) {
                Ok(value) => accepted == constraint_checked(constraint, value, st.cur_address),
                Err(failure) => accepted == Err::<bool, FailureView>(failure),
            })
        }),
{
}

/// Part `k` of the pattern of a rule stands at `pos`, and `next` is the position behind it: an
/// exact part is the identifier or the operator there, and for a parameter there is an expression
/// that is taken for it, which is the argument that belongs to this part.
pub open spec fn part_stands(
    st: State,
    source: Source,
    rule: Rule,
    k: int,
    pos: int,
    next: int,
    arguments: Seq<Expression>,
) -> bool {
    match rule.pattern_segments@[k] {
        PatternSegment::Exact(chars) => {
            &&& word_stands(source, pos, chars@) || operator_stands(source, pos, chars@)
            &&& next == pos + 1
        },
        PatternSegment::Parameter(param) => {
            let number = argument_count(rule.pattern_segments@, k) as int;
            &&& number < arguments.len()
            &&& expression_stands(source, pos, arguments[number], next)
            &&& takes(st, rule, param as int, arguments[number])
        },
    }
}

/// The first `count` parts of the pattern of a rule stand at the given positions, one behind the
/// other.
pub open spec fn parts_stand(
    st: State,
    source: Source,
    rule: Rule,
    count: int,
    positions: Seq<int>,
    arguments: Seq<Expression>,
) -> bool {
    &&& positions.len() == count + 1
    &&& arguments.len() == argument_count(rule.pattern_segments@, count)
    &&& forall|k: int|
        #![trigger rule.pattern_segments@[k]]
        0 <= k < count ==> part_stands(
            st,
            source,
            rule,
            k,
            positions[k],
            positions[k + 1],
            arguments,
        )
}

/// The instruction that is read where the program is now.
pub open spec fn instruction_here(
    st: State,
    rule_index: usize,
    arguments: Seq<Expression>,
) -> InstructionView {
    InstructionView {
        rule_index,
        label_ctx: latest_context(st),
        address: st.cur_address,
        output: st.cur_output,
        arguments,
    }
}

proof fn lemma_count_grows(segments: Seq<PatternSegment>, a: int, b: int)
    requires
        0 <= a <= b,
    ensures
        argument_count(segments, a) <= argument_count(segments, b),
        a < b && segments[a] is Parameter ==> argument_count(segments, a) < argument_count(
            segments,
            b,
        ),
    decreases b - a,
{
    if a < b {
        lemma_count_grows(segments, a, b - 1);
    }
}

proof fn lemma_fewer_parts_stand(
    st: State,
    source: Source,
    rule: Rule,
    count: int,
    positions: Seq<int>,
    arguments: Seq<Expression>,
)
    requires
        0 < count,
        parts_stand(st, source, rule, count, positions, arguments),
    ensures
        parts_stand(
            st,
            source,
            rule,
            count - 1,
            positions.drop_last(),
            arguments.take(argument_count(rule.pattern_segments@, count - 1) as int),
        ),
{
    let segments = rule.pattern_segments@;
    let before = count - 1;
    let fewer = arguments.take(argument_count(segments, before) as int);
    lemma_count_grows(segments, before, count);
    assert forall|k: int|
        #![trigger rule.pattern_segments@[k]]
        0 <= k < before implies part_stands(
        st,
        source,
        rule,
        k,
        positions.drop_last()[k],
        positions.drop_last()[k + 1],
        fewer,
    ) by {
        lemma_count_grows(segments, k, before);
        assert(part_stands(st, source, rule, k, positions[k], positions[k + 1], arguments));
    }
}

/// Matching goes on behind the parts that stand.
proof fn lemma_parts_are_matched(
    st: State,
    source: Source,
    rule: Rule,
    count: int,
    positions: Seq<int>,
    arguments: Seq<Expression>,
)
    requires
        source.wf(),
        st.labels.wf(),
        0 <= count <= rule.pattern_segments@.len(),
        parts_stand(st, source, rule, count, positions, arguments),
        0 <= positions[0] <= source.tokens@.len(),
    ensures
        0 <= positions[count] <= source.tokens@.len(),
        segments_matched(st, source, rule, 0, positions[0], Seq::empty()) == segments_matched(
            st,
            source,
            rule,
            count,
            positions[count],
            arguments,
        ),
    decreases count,
{
    if count == 0 {
        assert(arguments =~= Seq::empty());
    } else {
        let k = count - 1;
        let fewer = arguments.take(argument_count(rule.pattern_segments@, k) as int);
        lemma_fewer_parts_stand(st, source, rule, count, positions, arguments);
        lemma_parts_are_matched(st, source, rule, k, positions.drop_last(), fewer);
        let pos = positions[k];
        let next = positions[k + 1];
        assert(part_stands(st, source, rule, k, pos, next, arguments));
        match rule.pattern_segments@[k] {
            PatternSegment::Exact(chars) => {
                identifiers_are_read_where_they_stand(source, pos, chars@);
                operators_are_read_where_they_stand(source, pos, chars@);
                assert(fewer =~= arguments);
            },
            PatternSegment::Parameter(_) => {
                let expr = arguments[fewer.len() as int];
                expressions_are_read_where_they_stand(source, pos, expr, next);
                assert(fewer.push(expr) =~= arguments);
            },
        }
    }
}

/// Positions and arguments for a match.
proof fn lemma_matched_parts_stand(
    st: State,
    source: Source,
    rule: Rule,
    positions: Seq<int>,
    arguments: Seq<Expression>,
) -> (full: Seq<int>)
    requires
        source.wf(),
        st.labels.wf(),
        0 < positions.len() <= rule.pattern_segments@.len() + 1,
        0 <= positions[0] <= source.tokens@.len(),
        parts_stand(st, source, rule, positions.len() - 1, positions, arguments),
        segments_matched(
            st,
            source,
            rule,
            positions.len() - 1,
            positions.last(),
            arguments,
        ).1 matches Ok(Some(_)),
    ensures
        ({
            let matched = segments_matched(
                st,
                source,
                rule,
                positions.len() - 1,
                positions.last(),
                arguments,
            );
            &&& full.len() == rule.pattern_segments@.len() + 1
            &&& full[0] == positions[0]
            &&& full.last() == matched.0
            &&& parts_stand(
                st,
                source,
                rule,
                rule.pattern_segments@.len() as int,
                full,
                matched.1->Ok_0.unwrap(),
            )
        }),
    decreases rule.pattern_segments@.len() + 1 - positions.len(),
{
    let k = positions.len() - 1;
    let pos = positions.last();
    let segments = rule.pattern_segments@;
    if k == segments.len() {
        positions
    } else {
        lemma_parts_are_matched(st, source, rule, k, positions, arguments);
        let (next, longer) = match segments[k] {
            PatternSegment::Exact(_) => (pos + 1, arguments),
            PatternSegment::Parameter(_) => {
                let read = source.expression_at(pos)->Ok_0;
                (read.1, arguments.push(read.0))
            },
        };
        match segments[k] {
            PatternSegment::Exact(chars) => {
                identifiers_are_read_where_they_stand(source, pos, chars@);
                operators_are_read_where_they_stand(source, pos, chars@);
            },
            PatternSegment::Parameter(_) => {
                let read = source.expression_at(pos)->Ok_0;
                expressions_are_read_where_they_stand(source, pos, read.0, read.1);
            },
        }
        let further = positions.push(next);
        assert forall|j: int|
            #![trigger rule.pattern_segments@[j]]
            0 <= j < k + 1 implies part_stands(
            st,
            source,
            rule,
            j,
            further[j],
            further[j + 1],
            longer,
        ) by {
            if j < k {
                lemma_count_grows(segments, j, k);
                assert(part_stands(st, source, rule, j, positions[j], positions[j + 1], arguments));
            }
        }
        lemma_matched_parts_stand(st, source, rule, further, longer)
    }
}

/// Where a rule matches, its pattern stands in the source: there are positions, one for each part
/// and one behind the last, the first being the start and each next one behind the part before,
/// where the exact parts are the identifiers and operators of the source, letter for letter, and
/// the arguments are expressions that the rule takes.
pub proof fn matched_pattern_stands_in_the_source(
    def: Definition,
    st: State,
    source: Source,
    pos: int,
    rule_index: usize,
)
    requires
        source.wf(),
        st.labels.wf(),
        rule_index < def.rules@.len(),
        0 <= pos <= source.tokens@.len(),
    ensures
        rule_matched(def, st, source, pos, rule_index).1 matches Ok(Some(instr)) ==> {
            let rule = def.rules@[rule_index as int];
            &&& instr == instruction_here(st, rule_index, instr.arguments)
            &&& 0 <= rule_matched(def, st, source, pos, rule_index).0 <= source.tokens@.len()
            &&& exists|positions: Seq<int>|
                {
                    &&& #[trigger] parts_stand(
                        st,
                        source,
                        rule,
                        rule.pattern_segments@.len() as int,
                        positions,
                        instr.arguments,
                    )
                    &&& positions[0] == pos
                    &&& positions.last() == rule_matched(def, st, source, pos, rule_index).0
                }
        },
{
    match rule_matched(def, st, source, pos, rule_index).1 {
        Ok(Some(instr)) => {
            let rule = def.rules@[rule_index as int];
            let full = lemma_matched_parts_stand(
                st,
                source,
                rule,
                seq![pos],
                Seq::<Expression>::empty(),
            );
            assert(parts_stand(
                st,
                source,
                rule,
                rule.pattern_segments@.len() as int,
                full,
                instr.arguments,
            ));
            lemma_parts_are_matched(
                st,
                source,
                rule,
                rule.pattern_segments@.len() as int,
                full,
                instr.arguments,
            );
        },
        _ => {},
    }
}

/// Where the pattern of a rule stands in the source, the rule matches, with the arguments that
/// stand there and up to the position behind the last part.
pub proof fn standing_pattern_is_matched(
    def: Definition,
    st: State,
    source: Source,
    rule_index: usize,
    positions: Seq<int>,
    arguments: Seq<Expression>,
)
    requires
        source.wf(),
        st.labels.wf(),
        rule_index < def.rules@.len(),
        0 <= positions[0] <= source.tokens@.len(),
        parts_stand(
            st,
            source,
            def.rules@[rule_index as int],
            def.rules@[rule_index as int].pattern_segments@.len() as int,
            positions,
            arguments,
        ),
    ensures
        rule_matched(def, st, source, positions[0], rule_index) == (
            positions.last(),
            Ok::<Option<InstructionView>, FailureView>(
                Some(instruction_here(st, rule_index, arguments)),
            ),
        ),
{
    let rule = def.rules@[rule_index as int];
    lemma_parts_are_matched(
        st,
        source,
        rule,
        rule.pattern_segments@.len() as int,
        positions,
        arguments,
    );
}

/// The first part of a pattern that does not stand in the source ends the match. Where an exact
/// part is missing, or an argument is not taken, the rule does not match; where there is no
/// expression, or the value of the argument or its constraint fails, so does the match.
pub proof fn first_missing_part_ends_the_match(
    def: Definition,
    st: State,
    source: Source,
    rule_index: usize,
    k: int,
    positions: Seq<int>,
    arguments: Seq<Expression>,
)
    requires
        source.wf(),
        st.labels.wf(),
        rule_index < def.rules@.len(),
        0 <= positions[0] <= source.tokens@.len(),
        0 <= k < def.rules@[rule_index as int].pattern_segments@.len(),
        parts_stand(st, source, def.rules@[rule_index as int], k, positions, arguments),
    ensures
        ({
            let rule = def.rules@[rule_index as int];
            let pos = positions[k];
            let matched = rule_matched(def, st, source, positions[0], rule_index);
            let no_match = Ok::<Option<InstructionView>, FailureView>(None);
            match rule.pattern_segments@[k] {
                PatternSegment::Exact(chars) => !word_stands(source, pos, chars@)
                    && !operator_stands(source, pos, chars@) ==> matched == (pos, no_match),
                PatternSegment::Parameter(param) => match source.expressions@[pos] {
                    ParsedExpression::Failed(error) => matched == (
                        pos,
                        Err::<Option<InstructionView>, FailureView>(
                            says(error.message@, error.span),
                        ),
                    ),
                    ParsedExpression::Parsed { expr, length } => {
                        let parameter = rule.parameters@[param as int];
                        let context = latest_context(st);
                        let worth = expr_value(st.labels, expr, context, st.cur_address);
                        !parameter.allow_unresolved ==> {
                            &&& !expr_resolvable(st.labels, expr, context) ==> matched == (
                                pos + length,
                                no_match,
                            )
                            &&& expr_resolvable(st.labels, expr, context) ==> (
                            parameter.constraint matches Some(constraint) ==> match worth {
                                Ok(value) => match constraint_checked(
                                    constraint,
                                    value,
                                    st.cur_address,
                                ) {
                                    Ok(holds) => !holds ==> matched == (pos + length, no_match),
                                    Err(failure) => matched == (
                                        pos + length,
                                        Err::<Option<InstructionView>, FailureView>(failure),
                                    ),
                                },
                                Err(failure) => matched == (
                                    pos + length,
                                    Err::<Option<InstructionView>, FailureView>(failure),
                                ),
                            })
                        }
                    },
                },
            }
        }),
{
    let rule = def.rules@[rule_index as int];
    let pos = positions[k];
    lemma_parts_are_matched(st, source, rule, k, positions, arguments);
    match rule.pattern_segments@[k] {
        PatternSegment::Exact(chars) => {
            identifiers_are_read_where_they_stand(source, pos, chars@);
            operators_are_read_where_they_stand(source, pos, chars@);
        },
        PatternSegment::Parameter(_) => {},
    }
}

// ---- Which rule is taken ----

/// Rules are tried in their order. As long as none of them fails, and none matches with arguments
/// that are all known, the search goes on; the first that fails makes the search fail, and the
/// first that matches with arguments that are all known is taken.
pub proof fn rules_are_tried_in_order(
    def: Definition,
    st: State,
    source: Source,
    pos: int,
    i: int,
)
    requires
        0 <= i < def.rules@.len(),
        forall|j: int|
            0 <= j < i ==> {
                let earlier = #[trigger] rule_matched(def, st, source, pos, j as usize).1;
                earlier is Ok && !matches_known(st.labels, earlier)
            },
    ensures
        rule_matched(def, st, source, pos, i as usize).1 matches Err(failure) ==> rule_selected(
            def,
            st,
            source,
            pos,
            0,
            None,
        ) == Err::<Option<(InstructionView, int)>, FailureView>(failure),
        matches_known(st.labels, rule_matched(def, st, source, pos, i as usize).1) ==> (
        rule_selected(def, st, source, pos, 0, None) matches Ok(Some(found)) && is_match(
            rule_matched(def, st, source, pos, i as usize),
            found,
        )),
{
    lemma_rules_in_order(def, st, source, pos, 0, None, i);
}

proof fn lemma_rules_in_order(
    def: Definition,
    st: State,
    source: Source,
    pos: int,
    k: int,
    best: Option<(InstructionView, int)>,
    i: int,
)
    requires
        0 <= k <= i < def.rules@.len(),
        forall|j: int|
            0 <= j < i ==> {
                let earlier = #[trigger] rule_matched(def, st, source, pos, j as usize).1;
                earlier is Ok && !matches_known(st.labels, earlier)
            },
    ensures
        rule_matched(def, st, source, pos, i as usize).1 matches Err(failure) ==> rule_selected(
            def,
            st,
            source,
            pos,
            k,
            best,
        ) == Err::<Option<(InstructionView, int)>, FailureView>(failure),
        matches_known(st.labels, rule_matched(def, st, source, pos, i as usize).1) ==> (
        rule_selected(def, st, source, pos, k, best) matches Ok(Some(found)) && is_match(
            rule_matched(def, st, source, pos, i as usize),
            found,
        )),
    decreases i - k,
{
    if k < i {
        match rule_matched(def, st, source, pos, k as usize) {
            (next, Ok(Some(instr))) => {
                lemma_rules_in_order(def, st, source, pos, k + 1, Some((instr, next)), i);
            },
            (_, Ok(None)) => {
                lemma_rules_in_order(def, st, source, pos, k + 1, best, i);
            },
            (_, Err(_)) => {},
        }
    }
}

/// The search fails only where a rule fails.
pub proof fn search_fails_where_a_rule_does(def: Definition, st: State, source: Source, pos: int)
    ensures
        rule_selected(def, st, source, pos, 0, None) matches Err(failure) ==> exists|i: int|
            0 <= i < def.rules@.len() && (#[trigger] rule_matched(
                def,
                st,
                source,
                pos,
                i as usize,
            )).1 == Err::<Option<InstructionView>, FailureView>(failure),
{
    lemma_search_fails(def, st, source, pos, 0, None);
}

proof fn lemma_search_fails(
    def: Definition,
    st: State,
    source: Source,
    pos: int,
    k: int,
    best: Option<(InstructionView, int)>,
)
    requires
        0 <= k <= def.rules@.len(),
    ensures
        rule_selected(def, st, source, pos, k, best) matches Err(failure) ==> exists|i: int|
            0 <= i < def.rules@.len() && (#[trigger] rule_matched(
                def,
                st,
                source,
                pos,
                i as usize,
            )).1 == Err::<Option<InstructionView>, FailureView>(failure),
    decreases def.rules@.len() - k,
{
    if k < def.rules@.len() {
        match rule_matched(def, st, source, pos, k as usize) {
            (next, Ok(Some(instr))) => {
                lemma_search_fails(def, st, source, pos, k + 1, Some((instr, next)));
            },
            (_, Ok(None)) => {
                lemma_search_fails(def, st, source, pos, k + 1, best);
            },
            (_, Err(_)) => {},
        }
    }
}

} // verus!
