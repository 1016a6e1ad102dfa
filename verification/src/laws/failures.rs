//! What a line that fails leaves behind: what is refused changes nothing, and what was done before
//! the failure stays.

use vstd::prelude::*;
use crate::bitvec::{laid, Piece};
use crate::definition::Definition;
use crate::error::{error_at, FailureView, Span};
use crate::expr::ExpressionValue;
use crate::laws::output::instruction_pieces;
use crate::model::{
    address_value,
    constant_parsed,
    data_directive_width,
    data_parsed,
    directive_parsed,
    expr_value_here,
    expression_output,
    global_label_parsed,
    instruction_output,
    instruction_parsed,
    named_read,
    number_read,
    pieces_written,
    production_value,
    rule_selected,
    stopped,
    written_at,
    InstructionView,
    State,
};
use crate::parser::{expression_read, line_end_read};
use crate::source::{IncludedFiles, Source};
use crate::text::{decimal_text, quoted};

verus! {

/// A directive of the given name stands at the position.
pub open spec fn directive_stands(source: Source, pos: int, name: Seq<char>) -> bool {
    &&& source.token_at(pos).spec_is_operator("."@)
    &&& source.token_at(pos + 1).spec_identifier() == Some(name)
}

/// The name of a directive that takes no width.
pub open spec fn is_named_directive(name: Seq<char>) -> bool {
    name == "address"@ || name == "output"@ || name == "res"@ || name == "include"@ || name
        == "includebin"@
}

/// A data directive whose width is not a multiple of what one address stands for is refused, and
/// so is one that is wider than is supported; a directive of an unknown name is refused, too. The
/// failure is reported at the name, and nothing is changed.
pub proof fn refused_directive_changes_nothing(
    def: Definition,
    files: IncludedFiles,
    st: State,
    source: Source,
    pos: int,
    depth: nat,
    name: Seq<char>,
)
    requires
        directive_stands(source, pos, name),
    ensures
        ({
            let line = directive_parsed(def, files, st, source, pos, depth);
            let span = source.token_at(pos + 1).span;
            match data_directive_width(name) {
                Some(width) => {
                    &&& width as int % def.align_bits as int != 0 ==> line == stopped(
                        st,
                        pos + 2,
                        error_at(
                            "data directive is not aligned to `"@ + decimal_text(
                                def.align_bits as nat,
                            ) + "` bits"@,
                            span,
                        ),
                    )
                    &&& width as int % def.align_bits as int == 0 && width > 63 ==> line
                        == stopped(
                        st,
                        pos + 2,
                        error_at(
                            "data directive bit width is currently not supported"@,
                            span,
                        ),
                    )
                },
                None => !is_named_directive(name) ==> line == stopped(
                    st,
                    pos + 2,
                    error_at(quoted("unknown directive `"@, name), span),
                ),
            }
        }),
{
}

/// Where the operand of a directive has no value by now, or one that is no integer, nothing is
/// changed.
pub proof fn bad_operand_changes_nothing(
    def: Definition,
    files: IncludedFiles,
    st: State,
    source: Source,
    pos: int,
    depth: nat,
    name: Seq<char>,
    next: int,
    failure: FailureView,
)
    requires
        directive_stands(source, pos, name),
        data_directive_width(name) is None,
        name == "address"@ || name == "output"@ || name == "res"@,
        number_read(st, source, pos + 2) == (next, Err::<usize, FailureView>(failure)),
    ensures
        directive_parsed(def, files, st, source, pos, depth) == stopped(st, next, failure),
{
}

/// The operand of a directive takes effect before the end of the line is read: where something else
/// follows on the line, the line fails with the effect in place.
pub proof fn operand_takes_effect_before_the_line_ends(
    def: Definition,
    files: IncludedFiles,
    st: State,
    source: Source,
    pos: int,
    depth: nat,
    name: Seq<char>,
    next: int,
    number: usize,
    failure: FailureView,
)
    requires
        directive_stands(source, pos, name),
        data_directive_width(name) is None,
        name == "address"@ || name == "output"@,
        number_read(st, source, pos + 2) == (next, Ok::<usize, FailureView>(number)),
        line_end_read(source, next) == Err::<int, FailureView>(failure),
    ensures
        directive_parsed(def, files, st, source, pos, depth) == stopped(
            if name == "address"@ {
                State { cur_address: number, ..st }
            } else {
                State { cur_output: number, ..st }
            },
            next,
            failure,
        ),
{
}

/// Where no rule is taken, because none matches or because one fails while it is tried, nothing is
/// changed and nothing is read.
pub proof fn instruction_without_rule_changes_nothing(
    def: Definition,
    st: State,
    source: Source,
    pos: int,
)
    ensures
        match rule_selected(def, st, source, pos, 0, None) {
            Ok(Some(_)) => true,
            Ok(None) => instruction_parsed(def, st, source, pos) == stopped(
                st,
                pos,
                error_at("no match found for instruction"@, source.token_at(pos).span),
            ),
            Err(failure) => instruction_parsed(def, st, source, pos) == stopped(st, pos, failure),
        },
{
}

/// An instruction is put out before the end of its line is read: where something else follows on
/// the line, the line fails with the instruction put out.
pub proof fn instruction_is_put_out_before_its_line_ends(
    def: Definition,
    st: State,
    source: Source,
    pos: int,
    instr: InstructionView,
    next: int,
    failure: FailureView,
)
    requires
        rule_selected(def, st, source, pos, 0, None) == Ok::<
            Option<(InstructionView, int)>,
            FailureView,
        >(Some((instr, next))),
        instruction_output(def, st, instr).1 is Ok,
        line_end_read(source, next) == Err::<int, FailureView>(failure),
    ensures
        instruction_parsed(def, st, source, pos) == stopped(
            instruction_output(def, st, instr).0,
            next,
            failure,
        ),
{
}

/// A constant whose value fails is not stored.
pub proof fn constant_without_value_is_not_stored(st: State, source: Source, pos: int)
    requires
        named_read(source, pos, "="@).1 is Ok,
        ({
            let read = expression_read(source, pos + 2);
            read is Err || expr_value_here(st, read->Ok_0.0) is Err
        }),
    ensures
        constant_parsed(st, source, pos).result is Err,
        constant_parsed(st, source, pos).st == st,
{
}

/// A global label is stored before the end of its line is read: where something else follows on the
/// line, the line fails with the label in place.
pub proof fn label_is_stored_before_its_line_ends(
    st: State,
    source: Source,
    pos: int,
    name: Seq<char>,
    span: Span,
    failure: FailureView,
)
    requires
        named_read(source, pos, ":"@) == (
            pos + 2,
            Ok::<(Seq<char>, Span), FailureView>((name, span)),
        ),
        st.labels.global(name) is None,
        line_end_read(source, pos + 2) == Err::<int, FailureView>(failure),
    ensures
        global_label_parsed(st, source, pos) == stopped(
            State { labels: st.labels.with_global(name, address_value(st.cur_address)), ..st },
            pos + 2,
            failure,
        ),
{
}

/// The number of expressions that a data directive puts out, up to the first one that fails.
pub open spec fn data_count(
    def: Definition,
    st: State,
    source: Source,
    pos: int,
    data_width: usize,
) -> nat
    decreases source.tokens@.len() - pos,
{
    match expression_read(source, pos) {
        Ok((expr, next)) => match expression_output(def, st, expr, data_width) {
            (st, Ok(_)) => if source.token_at(next).spec_is_operator(","@) && 0 <= next
                < source.tokens@.len() {
                1 + data_count(def, st, source, next + 1, data_width)
            } else {
                1
            },
            (_, Err(_)) => 0,
        },
        Err(_) => 0,
    }
}

/// The expressions of a data directive that stand before the one that fails stay put out: whether
/// or not the line fails, the address and the output position have moved by the room of as many
/// expressions as were put out.
pub proof fn data_before_a_failure_stays(
    def: Definition,
    st: State,
    source: Source,
    pos: int,
    data_width: usize,
)
    requires
        def.wf(),
        source.wf(),
        0 <= pos <= source.tokens@.len(),
    ensures
        ({
            let after = data_parsed(def, st, source, pos, data_width).st;
            let count = data_count(def, st, source, pos, data_width);
            let size = data_width as int / def.align_bits as int;
            &&& after.cur_address == st.cur_address + count * size
            &&& after.cur_output == st.cur_output + count * size
        }),
    decreases source.tokens@.len() - pos,
{
    let size = data_width as int / def.align_bits as int;
    vstd::arithmetic::div_mod::lemma_div_pos_is_pos(data_width as int, def.align_bits as int);
    assert(0 * size == 0 && 1 * size == size);
    match expression_read(source, pos) {
        Ok((expr, next)) => {
            assert(source.expressions@[pos] is Parsed);
            let after = expression_output(def, st, expr, data_width).0;
            if source.token_at(next).spec_is_operator(","@) && next < source.tokens@.len() {
                data_before_a_failure_stays(def, after, source, next + 1, data_width);
                let rest = data_count(def, after, source, next + 1, data_width);
                assert((1 + rest) * size == size + rest * size) by (nonlinear_arith);
            }
        },
        Err(_) => {},
    }
}

/// The pieces of an instruction that stand before the one that fails stay written, and nothing but
/// the output is changed.
pub proof fn pieces_before_a_failure_stay(
    def: Definition,
    st: State,
    instr: InstructionView,
    k: int,
    width: int,
) -> (count: int)
    requires
        0 <= k,
    ensures
        ({
            let pieces = instruction_pieces(def, st.labels, instr, k, width);
            &&& 0 <= count <= pieces.len()
            &&& pieces_written(def, st, instr, k, width).0 == (State {
                output_bits: laid(st.output_bits, pieces.take(count)),
                ..st
            })
            &&& pieces_written(def, st, instr, k, width).1 is Ok ==> count == pieces.len()
        }),
    decreases def.rules@[instr.rule_index as int].production_segments@.len() - k,
{
    let rule = def.rules@[instr.rule_index as int];
    let pieces = instruction_pieces(def, st.labels, instr, k, width);
    assert(pieces.take(0) =~= Seq::<Piece>::empty());
    if k < rule.production_segments@.len() {
        match production_value(st.labels, rule, instr, rule.production_segments@[k]) {
            Ok(ExpressionValue::Integer(integer)) => {
                let (next, result) = written_at(def, st, instr.output + width, integer);
                if result is Ok {
                    let next_width = width + integer.width() as int / def.align_bits as int;
                    let rest = instruction_pieces(def, st.labels, instr, k + 1, next_width);
                    let count = pieces_before_a_failure_stay(def, next, instr, k + 1, next_width);
                    assert(pieces.take(count + 1).drop_first() =~= rest.take(count));
                    assert(pieces.take(count + 1)[0] == pieces[0]);
                    count + 1
                } else {
                    0
                }
            },
            _ => 0,
        }
    } else {
        0
    }
}

} // verus!
