//! What every line keeps, and how the lines of a file follow one another.

use vstd::prelude::*;
use crate::definition::Definition;
use crate::expr::{Expression, ExpressionValue};
use crate::label::Labels;
use crate::laws::labels::{labels_kept, values_kept};
use crate::model::{
    advanced,
    constant_parsed,
    data_directive_width,
    data_parsed,
    directive_name_read,
    directive_parsed,
    expression_output,
    global_label_parsed,
    instruction_output,
    instruction_parsed,
    line_finished,
    line_parsed,
    lines_parsed,
    local_label_parsed,
    number_read,
    pieces_written,
    production_value,
    reserved,
    rule_matched,
    rule_selected,
    segments_matched,
    written_at,
    InstructionView,
    Reached,
    State,
};
use crate::parser::{expression_read, file_start, string_read};
use crate::rule::{PatternSegment, Rule};
use crate::source::{IncludedFiles, Source};

verus! {

/// What a line keeps of the state before it: all labels with their values, and all that waits for
/// the second pass, in its order.
pub open spec fn state_kept(earlier: State, later: State) -> bool {
    &&& labels_kept(earlier.labels, later.labels)
    &&& earlier.unresolved_instructions.is_prefix_of(later.unresolved_instructions)
    &&& earlier.unresolved_expressions.is_prefix_of(later.unresolved_expressions)
}

pub(crate) proof fn lemma_labels_kept_transitive(a: Labels, b: Labels, c: Labels)
    requires
        labels_kept(a, b),
        labels_kept(b, c),
    ensures
        labels_kept(a, c),
{
    assert forall|i: int| 0 <= i < a.locals.len() implies values_kept(
        #[trigger] a.locals[i],
        c.locals[i],
    ) by {
        assert(values_kept(a.locals[i], b.locals[i]));
        assert(values_kept(b.locals[i], c.locals[i]));
    }
}

proof fn lemma_state_kept_transitive(a: State, b: State, c: State)
    requires
        state_kept(a, b),
        state_kept(b, c),
    ensures
        state_kept(a, c),
{
    lemma_labels_kept_transitive(a.labels, b.labels, c.labels);
    assert(a.unresolved_instructions =~= c.unresolved_instructions.take(
        a.unresolved_instructions.len() as int,
    ));
    assert(a.unresolved_expressions =~= c.unresolved_expressions.take(
        a.unresolved_expressions.len() as int,
    ));
}

pub(crate) proof fn lemma_state_kept_reflexive(a: State)
    ensures
        state_kept(a, a),
{
    assert(a.unresolved_instructions =~= a.unresolved_instructions.take(
        a.unresolved_instructions.len() as int,
    ));
    assert(a.unresolved_expressions =~= a.unresolved_expressions.take(
        a.unresolved_expressions.len() as int,
    ));
}

pub(crate) proof fn lemma_after_linebreaks(source: Source, pos: int)
    requires
        0 <= pos <= source.tokens@.len(),
    ensures
        pos <= source.after_linebreaks(pos) <= source.tokens@.len(),
    decreases source.tokens@.len() - pos,
{
    if pos < source.tokens@.len() && source.token_at(pos).kind is LineBreak {
        lemma_after_linebreaks(source, pos + 1);
    }
}

/// What reading a line from a position on keeps, whether or not the line fails: it does not go
/// back, it stays in the file, and it keeps of the state what lines keep. A line that is read takes
/// up at least one token.
pub open spec fn line_kept(st: State, source: Source, pos: int, line: Reached) -> bool {
    &&& state_kept(st, line.st)
    &&& line.st.labels.has_context()
    &&& pos <= line.pos <= source.tokens@.len()
    &&& line.result is Ok && pos < source.tokens@.len() ==> pos < line.pos
}

proof fn lemma_line_finished(before: State, st: State, source: Source, start: int, pos: int)
    requires
        0 <= start <= pos <= source.tokens@.len(),
        state_kept(before, st),
        st.labels.has_context(),
    ensures
        line_kept(before, source, start, line_finished(st, source, pos)),
{
    if pos < source.tokens@.len() {
        lemma_after_linebreaks(source, pos + 1);
    }
}

pub(crate) proof fn lemma_expression_output_keeps(
    def: Definition,
    st: State,
    expr: Expression,
    data_width: usize,
)
    ensures
        state_kept(st, expression_output(def, st, expr, data_width).0),
        expression_output(def, st, expr, data_width).0.labels == st.labels,
{
    lemma_state_kept_reflexive(st);
}

pub(crate) proof fn lemma_data_parsed(
    def: Definition,
    st: State,
    source: Source,
    pos: int,
    data_width: usize,
)
    requires
        source.wf(),
        0 <= pos <= source.tokens@.len(),
        st.labels.has_context(),
    ensures
        line_kept(st, source, pos, data_parsed(def, st, source, pos, data_width)),
        data_parsed(def, st, source, pos, data_width).st.labels == st.labels,
    decreases source.tokens@.len() - pos,
{
    lemma_state_kept_reflexive(st);
    match expression_read(source, pos) {
        Ok((expr, next)) => {
            assert(source.expressions@[pos] is Parsed);
            let after = expression_output(def, st, expr, data_width).0;
            lemma_expression_output_keeps(def, st, expr, data_width);
            if source.token_at(next).spec_is_operator(","@) && next < source.tokens@.len() {
                lemma_data_parsed(def, after, source, next + 1, data_width);
                lemma_state_kept_transitive(
                    st,
                    after,
                    data_parsed(def, after, source, next + 1, data_width).st,
                );
            } else {
                lemma_line_finished(st, after, source, pos, next);
            }
        },
        Err(_) => {},
    }
}

proof fn lemma_segments_matched(
    st: State,
    source: Source,
    rule: Rule,
    k: int,
    pos: int,
    arguments: Seq<Expression>,
)
    requires
        source.wf(),
        0 <= k,
        0 <= pos <= source.tokens@.len(),
    ensures
        pos <= segments_matched(st, source, rule, k, pos, arguments).0 <= source.tokens@.len(),
    decreases rule.pattern_segments@.len() - k,
{
    if k < rule.pattern_segments@.len() {
        match rule.pattern_segments@[k] {
            PatternSegment::Exact(chars) => {
                if pos < source.tokens@.len() {
                    lemma_segments_matched(st, source, rule, k + 1, pos + 1, arguments);
                }
            },
            PatternSegment::Parameter(_) => {
                match expression_read(source, pos) {
                    Ok((expr, next)) => {
                        assert(source.expressions@[pos] is Parsed);
                        lemma_segments_matched(
                            st,
                            source,
                            rule,
                            k + 1,
                            next,
                            arguments.push(expr),
                        );
                    },
                    Err(_) => {},
                }
            },
        }
    }
}

proof fn lemma_rule_selected(
    def: Definition,
    st: State,
    source: Source,
    pos: int,
    k: int,
    best: Option<(InstructionView, int)>,
)
    requires
        source.wf(),
        0 <= k,
        0 <= pos <= source.tokens@.len(),
        best matches Some((_, next)) ==> pos <= next <= source.tokens@.len(),
    ensures
        rule_selected(def, st, source, pos, k, best) matches Ok(Some((_, next))) ==> pos <= next
            <= source.tokens@.len(),
    decreases def.rules@.len() - k,
{
    if k < def.rules@.len() {
        lemma_segments_matched(st, source, def.rules@[k as usize as int], 0, pos, Seq::empty());
        match rule_matched(def, st, source, pos, k as usize) {
            (next, Ok(Some(instr))) => {
                lemma_rule_selected(def, st, source, pos, k + 1, Some((instr, next)));
            },
            (_, Ok(None)) => {
                lemma_rule_selected(def, st, source, pos, k + 1, best);
            },
            (_, Err(_)) => {},
        }
    }
}

/// Writing the pieces of an instruction changes the output and nothing else.
pub proof fn pieces_change_output_only(
    def: Definition,
    st: State,
    instr: InstructionView,
    k: int,
    width: int,
)
    ensures
        pieces_written(def, st, instr, k, width).0 == (State {
            output_bits: pieces_written(def, st, instr, k, width).0.output_bits,
            ..st
        }),
    decreases def.rules@[instr.rule_index as int].production_segments@.len() - k,
{
    let rule = def.rules@[instr.rule_index as int];
    if 0 <= k < rule.production_segments@.len() {
        match production_value(st.labels, rule, instr, rule.production_segments@[k]) {
            Ok(ExpressionValue::Integer(integer)) => {
                pieces_change_output_only(
                    def,
                    written_at(def, st, instr.output + width, integer).0,
                    instr,
                    k + 1,
                    width + integer.width() as int / def.align_bits as int,
                );
            },
            _ => {},
        }
    }
}

proof fn lemma_instruction_output_keeps(def: Definition, st: State, instr: InstructionView)
    ensures
        state_kept(st, instruction_output(def, st, instr).0),
        instruction_output(def, st, instr).0.labels == st.labels,
{
    lemma_state_kept_reflexive(st);
    let bits = def.rules@[instr.rule_index as int].production_bit_num as int;
    pieces_change_output_only(def, advanced(def, st, bits).0, instr, 0, 0);
}

proof fn lemma_instruction_parsed(def: Definition, st: State, source: Source, pos: int)
    requires
        source.wf(),
        0 <= pos <= source.tokens@.len(),
        st.labels.has_context(),
    ensures
        line_kept(st, source, pos, instruction_parsed(def, st, source, pos)),
{
    lemma_rule_selected(def, st, source, pos, 0, None);
    lemma_state_kept_reflexive(st);
    match rule_selected(def, st, source, pos, 0, None) {
        Ok(Some((instr, next))) => {
            lemma_instruction_output_keeps(def, st, instr);
            lemma_line_finished(st, instruction_output(def, st, instr).0, source, pos, next);
        },
        _ => {},
    }
}

proof fn lemma_labels_parsed(st: State, source: Source, pos: int)
    requires
        source.wf(),
        0 <= pos <= source.tokens@.len(),
        st.labels.has_context(),
    ensures
        line_kept(st, source, pos, constant_parsed(st, source, pos)),
        line_kept(st, source, pos, global_label_parsed(st, source, pos)),
        line_kept(st, source, pos, local_label_parsed(st, source, pos)),
{
    lemma_state_kept_reflexive(st);
    let constant = constant_parsed(st, source, pos);
    if constant.st != st {
        assert(source.expressions@[pos + 2] is Parsed);
        let next = expression_read(source, pos + 2)->Ok_0.1;
        lemma_line_finished(st, constant.st, source, pos, next);
    } else if expression_read(source, pos + 2) is Ok && pos + 2 <= source.tokens@.len() {
        assert(source.expressions@[pos + 2] is Parsed);
        lemma_line_finished(st, st, source, pos, expression_read(source, pos + 2)->Ok_0.1);
    }
    let label = global_label_parsed(st, source, pos);
    if pos + 2 <= source.tokens@.len() {
        lemma_line_finished(st, label.st, source, pos, pos + 2);
    }
    let local = local_label_parsed(st, source, pos);
    if pos + 3 <= source.tokens@.len() {
        lemma_line_finished(st, local.st, source, pos, pos + 3);
    }
}

proof fn lemma_directive_parsed(
    def: Definition,
    files: IncludedFiles,
    st: State,
    source: Source,
    pos: int,
    depth: nat,
)
    requires
        source.wf(),
        files.wf(),
        0 <= pos <= source.tokens@.len(),
        st.labels.has_context(),
    ensures
        line_kept(st, source, pos, directive_parsed(def, files, st, source, pos, depth)),
    decreases depth, source.tokens@.len() - pos, 0int,
{
    lemma_state_kept_reflexive(st);
    match directive_name_read(source, pos) {
        (next, Ok((directive, _))) => {
            assert(next <= source.tokens@.len());
            match data_directive_width(directive) {
                Some(width) => {
                    lemma_data_parsed(def, st, source, next, width);
                },
                None => {
                    lemma_number_directives(def, st, source, pos, next);
                    match string_read(source, next) {
                        Ok((name, end)) => {
                            lemma_line_finished(st, st, source, pos, end);
                            lemma_found(files, source.filename@, name, 0);
                            match files.found(source.filename@, name, 0) {
                                Some(nested) => {
                                    if depth > 0 {
                                        let start = file_start(nested);
                                        let inner = (depth - 1) as nat;
                                        lemma_after_linebreaks(nested, 0);
                                        lines_keep_state(def, files, st, nested, start, inner);
                                        lemma_line_finished(
                                            st,
                                            lines_parsed(def, files, st, nested, start, inner).0,
                                            source,
                                            pos,
                                            end,
                                        );
                                    }
                                },
                                None => {},
                            }
                        },
                        Err(_) => {},
                    }
                },
            }
        },
        (_, Err(_)) => {},
    }
}

proof fn lemma_number_directives(def: Definition, st: State, source: Source, pos: int, next: int)
    requires
        source.wf(),
        0 <= pos <= next <= source.tokens@.len(),
        st.labels.has_context(),
    ensures
        ({
            let (end, number) = number_read(st, source, next);
            &&& next <= end <= source.tokens@.len()
            &&& number matches Ok(number) ==> {
                &&& line_kept(
                    st,
                    source,
                    pos,
                    line_finished(State { cur_address: number, ..st }, source, end),
                )
                &&& line_kept(
                    st,
                    source,
                    pos,
                    line_finished(State { cur_output: number, ..st }, source, end),
                )
                &&& state_kept(st, reserved(def, st, number).0)
                &&& reserved(def, st, number).0.labels == st.labels
                &&& line_kept(
                    st,
                    source,
                    pos,
                    line_finished(reserved(def, st, number).0, source, end),
                )
            }
        }),
{
    lemma_state_kept_reflexive(st);
    let (end, number) = number_read(st, source, next);
    if expression_read(source, next) is Ok {
        assert(source.expressions@[next] is Parsed);
    }
    match number {
        Ok(number) => {
            lemma_line_finished(st, State { cur_address: number, ..st }, source, pos, end);
            lemma_line_finished(st, State { cur_output: number, ..st }, source, pos, end);
            lemma_line_finished(st, reserved(def, st, number).0, source, pos, end);
        },
        Err(_) => {},
    }
}

pub(crate) proof fn lemma_found(files: IncludedFiles, from: Seq<char>, name: Seq<char>, i: int)
    requires
        files.wf(),
        0 <= i,
    ensures
        files.found(from, name, i) matches Some(source) ==> source.wf(),
    decreases files.files@.len() - i,
{
    if i < files.files@.len() {
        assert(files.files@[i].source.wf());
        lemma_found(files, from, name, i + 1);
    }
}

/// The directive that asks for a file is no other one.
pub(crate) proof fn lemma_asking_directive()
    ensures
        "include"@ != "address"@,
        "include"@ != "output"@,
        "include"@ != "res"@,
        data_directive_width("include"@) is None,
{
    reveal_strlit("include");
    reveal_strlit("address");
    reveal_strlit("output");
    reveal_strlit("res");
    assert("include"@[0] == 'i');
    assert("address"@[0] == 'a');
    assert("output"@[0] == 'o');
    assert("res"@[0] == 'r');
}

/// A line does not go back and stays in the file; it keeps all labels with their values, and all
/// that waits for the second pass, even if it fails. A line that is read takes up at least one
/// token.
pub proof fn line_keeps_state(
    def: Definition,
    files: IncludedFiles,
    st: State,
    source: Source,
    pos: int,
    depth: nat,
)
    requires
        source.wf(),
        files.wf(),
        0 <= pos < source.tokens@.len(),
        st.labels.has_context(),
    ensures
        line_kept(st, source, pos, line_parsed(def, files, st, source, pos, depth)),
    decreases depth, source.tokens@.len() - pos, 1int,
{
    lemma_directive_parsed(def, files, st, source, pos, depth);
    lemma_labels_parsed(st, source, pos);
    lemma_instruction_parsed(def, st, source, pos);
}

/// So do all lines of a file: a label never changes its value, and nothing that waits for the
/// second pass is lost or changes its place in the queue.
pub proof fn lines_keep_state(
    def: Definition,
    files: IncludedFiles,
    st: State,
    source: Source,
    pos: int,
    depth: nat,
)
    requires
        source.wf(),
        files.wf(),
        0 <= pos <= source.tokens@.len(),
        st.labels.has_context(),
    ensures
        state_kept(st, lines_parsed(def, files, st, source, pos, depth).0),
        lines_parsed(def, files, st, source, pos, depth).0.labels.has_context(),
    decreases depth, source.tokens@.len() - pos, 2int,
{
    if pos < source.tokens@.len() {
        line_keeps_state(def, files, st, source, pos, depth);
        let line = line_parsed(def, files, st, source, pos, depth);
        if line.result is Ok {
            lines_keep_state(def, files, line.st, source, line.pos, depth);
            lemma_state_kept_transitive(
                st,
                line.st,
                lines_parsed(def, files, line.st, source, line.pos, depth).0,
            );
        }
    } else {
        lemma_state_kept_reflexive(st);
    }
}

/// Every line of a file is read: from the start of a line, the outcome of the file is the outcome
/// of the line followed by the rest of the file. The first line that fails ends the reading: the
/// lines before it keep their effect, and the lines behind it have none.
pub proof fn lines_follow_one_another(
    def: Definition,
    files: IncludedFiles,
    st: State,
    source: Source,
    pos: int,
    depth: nat,
)
    requires
        source.wf(),
        files.wf(),
        0 <= pos < source.tokens@.len(),
        st.labels.has_context(),
    ensures
        ({
            let line = line_parsed(def, files, st, source, pos, depth);
            lines_parsed(def, files, st, source, pos, depth) == (match line.result {
                Ok(_) => lines_parsed(def, files, line.st, source, line.pos, depth),
                Err(failure) => (line.st, Err(failure)),
            })
        }),
{
    line_keeps_state(def, files, st, source, pos, depth);
}

} // verus!
