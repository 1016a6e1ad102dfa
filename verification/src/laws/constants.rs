//! Constants may stand before or behind the data that uses them.

use vstd::prelude::*;
use crate::assembler::UnresolvedExpression;
use crate::bitvec::{overlay, overlay_commutes};
use crate::definition::Definition;
use crate::error::{FailureView, Outcome};
use crate::expr::{
    all_names,
    lemma_all_names,
    lemma_same_value,
    Expression,
    ExpressionName,
    ExpressionValue,
};
use crate::label::{LabelContext, Labels};
use crate::laws::labels::{known_value_stays, labels_kept};
use crate::laws::lines::{
    lemma_after_linebreaks,
    lemma_data_parsed,
    lemma_expression_output_keeps,
    line_keeps_state,
    lines_keep_state,
};
use crate::laws::parts::{
    ends_its_lines,
    joins,
    read_in_turn,
    runs_of_lines_follow_one_another,
};
use crate::laws::spans::second_pass_ignores_spans;
use crate::model::{
    advanced,
    assembled,
    completed,
    constant_parsed,
    current_context,
    data_directive_width,
    data_item,
    data_parsed,
    directive_parsed,
    expr_resolvable,
    expr_value,
    expression_completed,
    expression_output,
    expressions_completed,
    first_pass,
    initial_state,
    label_env,
    line_parsed,
    lines_parsed,
    InstructionView,
    State,
    Step,
};
use crate::parser::{expression_read, file_start, line_end_read};
use crate::source::{IncludedFiles, ParsedExpression, Source};

verus! {

/// A line starts at the position, and holds anything.
pub open spec fn starts_line(source: Source, pos: int) -> bool {
    &&& 0 <= pos < source.tokens@.len()
    &&& !(source.tokens@[pos].kind is LineBreak)
    &&& pos == 0 || source.tokens@[pos - 1].kind is LineBreak
}

/// Every line defines a constant, whose value does not depend on where it stands.
pub open spec fn only_constants(source: Source) -> bool {
    forall|pos: int|
        #[trigger] starts_line(source, pos) ==> {
            &&& source.token_at(pos).spec_identifier() is Some
            &&& source.token_at(pos + 1).spec_is_operator("="@)
            &&& source.expressions@[pos + 2] matches ParsedExpression::Parsed { expr, .. }
                ==> all_names(expr, fixed_names())
        }
}

/// All names but that of the program counter.
pub open spec fn fixed_names() -> spec_fn(ExpressionName) -> bool {
    |name: ExpressionName|
        !(name matches ExpressionName::GlobalVariable(text) && text@ == "pc"@)
}

/// Every line is a data directive.
pub open spec fn only_data(source: Source) -> bool {
    forall|pos: int|
        #[trigger] starts_line(source, pos) ==> source.token_at(pos).spec_is_operator("."@) && (
        source.token_at(pos + 1).spec_identifier() matches Some(name) && data_directive_width(
            name,
        ) is Some)
}

/// Two outcomes with the same bits, or two failures.
pub open spec fn same_bits(a: Outcome<Seq<bool>>, b: Outcome<Seq<bool>>) -> bool {
    match (a, b) {
        (Ok(x), Ok(y)) => x == y,
        (Err(_), Err(_)) => true,
        _ => false,
    }
}

/// There are no local labels.
spec fn no_locals(labels: Labels) -> bool {
    forall|i: int| 0 <= i < labels.locals.len() ==> #[trigger] labels.locals[i] == Map::<
        Seq<char>,
        ExpressionValue,
    >::empty()
}

proof fn lemma_line_starts(source: Source, pos: int)
    requires
        0 <= pos <= source.tokens@.len(),
    ensures
        ({
            let next = source.after_linebreaks(pos);
            &&& pos <= next <= source.tokens@.len()
            &&& next < source.tokens@.len() ==> !(source.tokens@[next].kind is LineBreak)
            &&& next == pos || source.tokens@[next - 1].kind is LineBreak
        }),
    decreases source.tokens@.len() - pos,
{
    if pos < source.tokens@.len() && source.token_at(pos).kind is LineBreak {
        lemma_line_starts(source, pos + 1);
    }
}

/// The position is the end of the file or the start of a line.
spec fn between_lines(source: Source, pos: int) -> bool {
    pos == source.tokens@.len() || starts_line(source, pos)
}

proof fn lemma_between_lines(source: Source, pos: int)
    requires
        0 <= pos <= source.tokens@.len(),
    ensures
        line_end_read(source, pos) matches Ok(next) ==> between_lines(source, next),
        pos == 0 ==> between_lines(source, file_start(source)),
{
    lemma_line_starts(source, pos);
}

// ---- Constants ----

proof fn lemma_fixed_value(
    labels: Labels,
    expr: Expression,
    ctx: LabelContext,
    pc: usize,
    other_pc: usize,
)
    requires
        all_names(expr, fixed_names()),
    ensures
        expr_value(labels, expr, ctx, pc) == expr_value(labels, expr, ctx, other_pc),
{
    lemma_same_value(
        expr,
        fixed_names(),
        label_env(labels, ctx, pc),
        label_env(labels, ctx, other_pc),
    );
}

/// Two runs of the same constants: they define the same labels, or fail alike, and change nothing
/// else.
spec fn defined_alike(a: State, b: State, x: Step, y: Step) -> bool {
    &&& x.0 == (State { labels: x.0.labels, ..a })
    &&& y.0 == (State { labels: x.0.labels, ..b })
    &&& x.1 == y.1
    &&& no_locals(a.labels) ==> no_locals(x.0.labels)
}

proof fn lemma_constants_alike(
    def: Definition,
    files: IncludedFiles,
    a: State,
    b: State,
    source: Source,
    pos: int,
    depth: nat,
)
    requires
        source.wf(),
        files.wf(),
        only_constants(source),
        between_lines(source, pos),
        a.labels == b.labels,
        a.labels.has_context(),
    ensures
        defined_alike(
            a,
            b,
            lines_parsed(def, files, a, source, pos, depth),
            lines_parsed(def, files, b, source, pos, depth),
        ),
    decreases source.tokens@.len() - pos,
{
    if pos < source.tokens@.len() {
        assert(starts_line(source, pos));
        line_keeps_state(def, files, a, source, pos, depth);
        line_keeps_state(def, files, b, source, pos, depth);
        let x = constant_parsed(a, source, pos);
        let y = constant_parsed(b, source, pos);
        assert(line_parsed(def, files, a, source, pos, depth) == x);
        assert(line_parsed(def, files, b, source, pos, depth) == y);
        assert(source.expressions@[pos + 2] matches ParsedExpression::Parsed { expr, .. }
            ==> all_names(expr, fixed_names()));
        match expression_read(source, pos + 2) {
            Ok((expr, next)) => {
                lemma_fixed_value(
                    a.labels,
                    expr,
                    current_context(a),
                    a.cur_address,
                    b.cur_address,
                );
                lemma_between_lines(source, next);
            },
            Err(_) => {},
        }
        assert(x.result == y.result && x.pos == y.pos);
        assert(x.st == (State { labels: x.st.labels, ..a }));
        assert(y.st == (State { labels: x.st.labels, ..b }));
        assert(no_locals(a.labels) ==> no_locals(x.st.labels));
        if x.result is Ok {
            lemma_constants_alike(def, files, x.st, y.st, source, x.pos, depth);
        }
    }
}

// ---- Data ----

/// The bits that the second pass ends with, if the labels are the given ones.
spec fn ends_with(def: Definition, labels: Labels, st: State) -> Option<Seq<bool>> {
    match completed(def, State { labels, ..st }) {
        (done, Ok(_)) => Some(done.output_bits),
        (_, Err(_)) => None,
    }
}

/// What is put out are data expressions, one behind the other, and their labels are among the given
/// ones.
spec fn data_only(def: Definition, labels: Labels, st: State) -> bool {
    &&& st.unresolved_instructions.len() == 0
    &&& st.labels.has_context()
    &&& labels_kept(st.labels, labels)
    &&& forall|k: int|
        0 <= k < st.unresolved_expressions.len() ==> {
            let data = #[trigger] st.unresolved_expressions[k];
            data.output * def.align_bits + data.data_width <= st.cur_output * def.align_bits
        }
}

proof fn lemma_late_write_commutes(
    def: Definition,
    st: State,
    exprs: Seq<UnresolvedExpression>,
    k: int,
    index: int,
    piece: Seq<bool>,
)
    requires
        0 <= k,
        0 <= index,
        forall|j: int|
            0 <= j < exprs.len() ==> {
                let data = #[trigger] exprs[j];
                data.output * def.align_bits + data.data_width <= index
            },
    ensures
        ({
            let (done, result) = expressions_completed(def, st, exprs, k);
            let late = State { output_bits: overlay(st.output_bits, index, piece), ..st };
            expressions_completed(def, late, exprs, k) == (
                State { output_bits: overlay(done.output_bits, index, piece), ..done },
                result,
            )
        }),
    decreases exprs.len() - k,
{
    if k < exprs.len() {
        let data = exprs[k];
        assert(data.output * def.align_bits + data.data_width <= index);
        let late = State { output_bits: overlay(st.output_bits, index, piece), ..st };
        let next = expression_completed(def, st, data).0;
        assert(0 <= data.output * def.align_bits) by (nonlinear_arith)
            requires
                0 <= data.output,
                0 <= def.align_bits,
        ;
        match expr_value(st.labels, data.expr, data.label_ctx, data.address) {
            Ok(ExpressionValue::Integer(integer)) => {
                if data.data_width > 0 {
                    let written = integer.sliced((data.data_width - 1) as usize, 0);
                    assert(written.bits().len() == data.data_width);
                    overlay_commutes(
                        st.output_bits,
                        data.output * def.align_bits,
                        written.bits(),
                        index,
                        piece,
                    );
                }
            },
            _ => {},
        }
        assert(expression_completed(def, late, data) == (
            State { output_bits: overlay(next.output_bits, index, piece), ..next },
            expression_completed(def, st, data).1,
        ));
        lemma_late_write_commutes(def, next, exprs, k + 1, index, piece);
    }
}

proof fn lemma_one_more(
    def: Definition,
    st: State,
    exprs: Seq<UnresolvedExpression>,
    k: int,
    data: UnresolvedExpression,
)
    requires
        0 <= k <= exprs.len(),
    ensures
        expressions_completed(def, st, exprs.push(data), k) == (match expressions_completed(
            def,
            st,
            exprs,
            k,
        ) {
            (done, Ok(_)) => expression_completed(def, done, data),
            (done, Err(failure)) => (done, Err(failure)),
        }),
    decreases exprs.len() - k,
{
    let more = exprs.push(data);
    if k < exprs.len() {
        assert(more[k] == exprs[k]);
        lemma_one_more(def, expression_completed(def, st, exprs[k]).0, exprs, k + 1, data);
    } else {
        assert(more[k] == data);
        let (done, result) = expression_completed(def, st, data);
        assert(result is Ok ==> result->Ok_0 == ());
        assert(expressions_completed(def, done, more, k + 1) == (done, Ok::<(), FailureView>(())));
    }
}

proof fn lemma_completed_keeps(def: Definition, st: State, exprs: Seq<UnresolvedExpression>, k: int)
    requires
        0 <= k,
    ensures
        ({
            let done = expressions_completed(def, st, exprs, k).0;
            done == (State { output_bits: done.output_bits, ..st })
        }),
    decreases exprs.len() - k,
{
    if k < exprs.len() {
        lemma_completed_keeps(def, expression_completed(def, st, exprs[k]).0, exprs, k + 1);
    }
}

/// The bits that the second pass ends with once a data expression is put out, too.
spec fn ends_with_more(
    def: Definition,
    labels: Labels,
    st: State,
    data: UnresolvedExpression,
) -> Option<Seq<bool>> {
    match ends_with(def, labels, st) {
        Some(bits) => match expression_completed(
            def,
            State { labels, output_bits: bits, ..st },
            data,
        ) {
            (done, Ok(_)) => Some(done.output_bits),
            (_, Err(_)) => None,
        },
        None => None,
    }
}

proof fn lemma_data_step(
    def: Definition,
    labels: Labels,
    st: State,
    expr: Expression,
    data_width: usize,
)
    requires
        def.wf(),
        data_only(def, labels, st),
        data_width as int % def.align_bits as int == 0,
    ensures
        ({
            let (after, result) = expression_output(def, st, expr, data_width);
            let more = ends_with_more(def, labels, st, data_item(st, expr, data_width));
            let moved = advanced(def, st, data_width as int);
            &&& result is Ok ==> {
                &&& moved.1 is Ok
                &&& after.cur_address == moved.0.cur_address
                &&& after.cur_output == moved.0.cur_output
                &&& data_only(def, labels, after)
                &&& ends_with(def, labels, after) == more
            }
            &&& result is Err && moved.1 is Ok ==> more is None
        }),
{
    let (after, result) = expression_output(def, st, expr, data_width);
    let data = data_item(st, expr, data_width);
    let ctx = current_context(st);
    let exprs = st.unresolved_expressions;
    let none = Seq::<InstructionView>::empty();
    let base = State {
        labels,
        unresolved_instructions: none,
        unresolved_expressions: Seq::empty(),
        ..st
    };
    lemma_expression_output_keeps(def, st, expr, data_width);
    lemma_completed_keeps(def, base, exprs, 0);
    lemma_ends_with(def, labels, st);
    let inc = data_width as int / def.align_bits as int;
    let align = def.align_bits as int;
    assert(inc * align == data_width) by {
        vstd::arithmetic::div_mod::lemma_fundamental_div_mod(data_width as int, align);
        vstd::arithmetic::mul::lemma_mul_is_commutative(inc, align);
    }
    vstd::arithmetic::div_mod::lemma_div_pos_is_pos(data_width as int, align);
    assert((st.cur_output + inc) * align == st.cur_output * align + inc * align)
        by (nonlinear_arith);
    if expr_resolvable(st.labels, expr, ctx) {
        known_value_stays(st.labels, labels, expr, ctx, st.cur_address);
        match expr_value(labels, expr, ctx, st.cur_address) {
            Ok(ExpressionValue::Integer(integer)) => {
                if data_width > 0 {
                    let piece = integer.sliced((data_width - 1) as usize, 0);
                    assert(piece.width() == data_width);
                    assert(0 <= st.cur_output * align) by (nonlinear_arith)
                        requires
                            0 <= st.cur_output,
                            0 <= align,
                    ;
                    lemma_late_write_commutes(
                        def,
                        base,
                        exprs,
                        0,
                        st.cur_output * align,
                        piece.bits(),
                    );
                    if result is Ok {
                        lemma_ends_with(def, labels, after);
                        let late = State {
                            labels,
                            unresolved_instructions: none,
                            unresolved_expressions: Seq::empty(),
                            ..after
                        };
                        let written = State {
                            output_bits: overlay(
                                base.output_bits,
                                st.cur_output * align,
                                piece.bits(),
                            ),
                            ..base
                        };
                        lemma_position_is_not_read(def, late, written, exprs, 0);
                    }
                }
            },
            _ => {},
        }
    } else if result is Ok {
        lemma_ends_with(def, labels, after);
        let late = State {
            labels,
            unresolved_instructions: none,
            unresolved_expressions: Seq::empty(),
            ..after
        };
        assert(after.unresolved_expressions == exprs.push(data));
        lemma_position_is_not_read(def, late, base, exprs.push(data), 0);
        lemma_one_more(def, base, exprs, 0, data);
        assert forall|k: int| 0 <= k < after.unresolved_expressions.len() implies ({
            let data = #[trigger] after.unresolved_expressions[k];
            data.output * def.align_bits + data.data_width <= after.cur_output * def.align_bits
        }) by {
            if k < exprs.len() {
                assert(after.unresolved_expressions[k] == exprs[k]);
            }
        }
    }
}

proof fn lemma_ends_with(def: Definition, labels: Labels, st: State)
    requires
        st.unresolved_instructions.len() == 0,
    ensures
        ends_with(def, labels, st) == (match expressions_completed(
            def,
            State {
                labels,
                unresolved_instructions: Seq::empty(),
                unresolved_expressions: Seq::empty(),
                ..st
            },
            st.unresolved_expressions,
            0,
        ) {
            (done, Ok(_)) => Some(done.output_bits),
            (_, Err(_)) => None,
        }),
{
}

/// The second pass does not look at the address and the output position that were reached.
proof fn lemma_position_is_not_read(
    def: Definition,
    a: State,
    b: State,
    exprs: Seq<UnresolvedExpression>,
    k: int,
)
    requires
        a.labels == b.labels,
        a.output_bits == b.output_bits,
        0 <= k,
    ensures
        expressions_completed(def, a, exprs, k).0.output_bits == expressions_completed(
            def,
            b,
            exprs,
            k,
        ).0.output_bits,
        expressions_completed(def, a, exprs, k).1 == expressions_completed(def, b, exprs, k).1,
    decreases exprs.len() - k,
{
    if k < exprs.len() {
        lemma_position_is_not_read(
            def,
            expression_completed(def, a, exprs[k]).0,
            expression_completed(def, b, exprs[k]).0,
            exprs,
            k + 1,
        );
    }
}

// ---- Two runs over the same data ----

/// Two states between which the labels that are known by now make the only difference.
spec fn twins(def: Definition, labels: Labels, a: State, b: State) -> bool {
    &&& data_only(def, labels, a)
    &&& data_only(def, labels, b)
    &&& a.cur_address == b.cur_address
    &&& a.cur_output == b.cur_output
    &&& ends_with(def, labels, a) == ends_with(def, labels, b)
}

/// The run failed, or the second pass is going to.
spec fn fails(def: Definition, labels: Labels, run: Step) -> bool {
    run.1 is Err || (data_only(def, labels, run.0) && ends_with(def, labels, run.0) is None)
}

spec fn twin_runs(def: Definition, labels: Labels, a: Step, b: Step) -> bool {
    ||| a.1 is Ok && b.1 is Ok && twins(def, labels, a.0, b.0)
    ||| fails(def, labels, a) && fails(def, labels, b)
}

proof fn lemma_twin_step(
    def: Definition,
    labels: Labels,
    a: State,
    b: State,
    expr: Expression,
    data_width: usize,
)
    requires
        def.wf(),
        no_locals(labels),
        twins(def, labels, a, b),
        data_width as int % def.align_bits as int == 0,
    ensures
        twin_runs(
            def,
            labels,
            expression_output(def, a, expr, data_width),
            expression_output(def, b, expr, data_width),
        ),
{
    lemma_data_step(def, labels, a, expr, data_width);
    lemma_data_step(def, labels, b, expr, data_width);
    let x = data_item(a, expr, data_width);
    let y = data_item(b, expr, data_width);
    let all = |name: ExpressionName| true;
    lemma_all_names(expr, all);
    lemma_same_value(
        expr,
        all,
        label_env(labels, x.label_ctx, x.address),
        label_env(labels, y.label_ctx, y.address),
    );
    assert(ends_with_more(def, labels, a, x) == ends_with_more(def, labels, b, y));
}

proof fn lemma_failing_data(
    def: Definition,
    labels: Labels,
    st: State,
    source: Source,
    pos: int,
    data_width: usize,
)
    requires
        def.wf(),
        source.wf(),
        0 <= pos <= source.tokens@.len(),
        data_only(def, labels, st),
        ends_with(def, labels, st) is None,
        data_width as int % def.align_bits as int == 0,
    ensures
        ({
            let line = data_parsed(def, st, source, pos, data_width);
            fails(def, labels, (line.st, line.result))
        }),
    decreases source.tokens@.len() - pos,
{
    match expression_read(source, pos) {
        Ok((expr, next)) => {
            assert(source.expressions@[pos] is Parsed);
            lemma_data_step(def, labels, st, expr, data_width);
            let (after, result) = expression_output(def, st, expr, data_width);
            if result is Ok && source.token_at(next).spec_is_operator(","@) && next
                < source.tokens@.len() {
                lemma_failing_data(def, labels, after, source, next + 1, data_width);
            }
        },
        Err(_) => {},
    }
}

proof fn lemma_twin_data(
    def: Definition,
    labels: Labels,
    a: State,
    b: State,
    source: Source,
    pos: int,
    data_width: usize,
)
    requires
        def.wf(),
        no_locals(labels),
        source.wf(),
        0 <= pos <= source.tokens@.len(),
        twins(def, labels, a, b),
        data_width as int % def.align_bits as int == 0,
    ensures
        ({
            let x = data_parsed(def, a, source, pos, data_width);
            let y = data_parsed(def, b, source, pos, data_width);
            &&& twin_runs(def, labels, (x.st, x.result), (y.st, y.result))
            &&& x.result is Ok && y.result is Ok ==> x.pos == y.pos
            &&& x.result is Ok ==> between_lines(source, x.pos)
            &&& y.result is Ok ==> between_lines(source, y.pos)
        }),
    decreases source.tokens@.len() - pos,
{
    match expression_read(source, pos) {
        Ok((expr, next)) => {
            assert(source.expressions@[pos] is Parsed);
            lemma_twin_step(def, labels, a, b, expr, data_width);
            let (a_after, a_result) = expression_output(def, a, expr, data_width);
            let (b_after, b_result) = expression_output(def, b, expr, data_width);
            lemma_between_lines(source, next);
            if source.token_at(next).spec_is_operator(","@) && next < source.tokens@.len() {
                lemma_ends_between_lines(def, a_after, source, next + 1, data_width);
                lemma_ends_between_lines(def, b_after, source, next + 1, data_width);
                lemma_same_place(def, a_after, b_after, source, next + 1, data_width);
                if a_result is Ok && b_result is Ok && twins(def, labels, a_after, b_after) {
                    lemma_twin_data(
                        def,
                        labels,
                        a_after,
                        b_after,
                        source,
                        next + 1,
                        data_width,
                    );
                } else {
                    if a_result is Ok {
                        lemma_failing_data(def, labels, a_after, source, next + 1, data_width);
                    }
                    if b_result is Ok {
                        lemma_failing_data(def, labels, b_after, source, next + 1, data_width);
                    }
                }
            }
        },
        Err(_) => {},
    }
}

proof fn lemma_ends_between_lines(
    def: Definition,
    st: State,
    source: Source,
    pos: int,
    data_width: usize,
)
    requires
        source.wf(),
        0 <= pos <= source.tokens@.len(),
    ensures
        ({
            let line = data_parsed(def, st, source, pos, data_width);
            line.result is Ok ==> between_lines(source, line.pos)
        }),
    decreases source.tokens@.len() - pos,
{
    match expression_read(source, pos) {
        Ok((expr, next)) => {
            assert(source.expressions@[pos] is Parsed);
            lemma_between_lines(source, next);
            if source.token_at(next).spec_is_operator(","@) && next < source.tokens@.len() {
                let after = expression_output(def, st, expr, data_width).0;
                lemma_ends_between_lines(def, after, source, next + 1, data_width);
            }
        },
        Err(_) => {},
    }
}

/// Where a data directive ends does not depend on the state.
proof fn lemma_same_place(
    def: Definition,
    a: State,
    b: State,
    source: Source,
    pos: int,
    data_width: usize,
)
    requires
        source.wf(),
        0 <= pos <= source.tokens@.len(),
    ensures
        ({
            let x = data_parsed(def, a, source, pos, data_width);
            let y = data_parsed(def, b, source, pos, data_width);
            x.result is Ok && y.result is Ok ==> x.pos == y.pos
        }),
    decreases source.tokens@.len() - pos,
{
    match expression_read(source, pos) {
        Ok((expr, next)) => {
            assert(source.expressions@[pos] is Parsed);
            if source.token_at(next).spec_is_operator(","@) && next < source.tokens@.len() {
                lemma_same_place(
                    def,
                    expression_output(def, a, expr, data_width).0,
                    expression_output(def, b, expr, data_width).0,
                    source,
                    next + 1,
                    data_width,
                );
            }
        },
        Err(_) => {},
    }
}

/// The width that the data directive at a position asks for.
spec fn width_at(source: Source, pos: int) -> usize {
    data_directive_width(source.token_at(pos + 1).spec_identifier()->Some_0)->Some_0
}

proof fn lemma_data_line(
    def: Definition,
    files: IncludedFiles,
    st: State,
    source: Source,
    pos: int,
    depth: nat,
)
    requires
        source.wf(),
        only_data(source),
        starts_line(source, pos),
    ensures
        pos + 2 <= source.tokens@.len(),
        ({
            let line = line_parsed(def, files, st, source, pos, depth);
            let width = width_at(source, pos);
            if width as int % def.align_bits as int == 0 && width <= 63 {
                line == data_parsed(def, st, source, pos + 2, width)
            } else {
                line.result is Err && line.st == st
            }
        }),
{
    assert(source.token_at(pos).spec_is_operator("."@));
    assert(line_parsed(def, files, st, source, pos, depth) == directive_parsed(
        def,
        files,
        st,
        source,
        pos,
        depth,
    ));
}

proof fn lemma_failing_lines(
    def: Definition,
    files: IncludedFiles,
    labels: Labels,
    st: State,
    source: Source,
    pos: int,
    depth: nat,
)
    requires
        def.wf(),
        source.wf(),
        files.wf(),
        only_data(source),
        between_lines(source, pos),
        0 <= pos,
        data_only(def, labels, st),
        ends_with(def, labels, st) is None,
    ensures
        fails(def, labels, lines_parsed(def, files, st, source, pos, depth)),
    decreases source.tokens@.len() - pos,
{
    if pos < source.tokens@.len() {
        lemma_data_line(def, files, st, source, pos, depth);
        line_keeps_state(def, files, st, source, pos, depth);
        let line = line_parsed(def, files, st, source, pos, depth);
        if line.result is Ok {
            let width = width_at(source, pos);
            lemma_failing_data(def, labels, st, source, pos + 2, width);
            lemma_ends_between_lines(def, st, source, pos + 2, width);
            lemma_failing_lines(def, files, labels, line.st, source, line.pos, depth);
        }
    }
}

proof fn lemma_twin_lines(
    def: Definition,
    files: IncludedFiles,
    labels: Labels,
    a: State,
    b: State,
    source: Source,
    pos: int,
    depth: nat,
)
    requires
        def.wf(),
        source.wf(),
        files.wf(),
        no_locals(labels),
        only_data(source),
        between_lines(source, pos),
        0 <= pos,
        twins(def, labels, a, b),
    ensures
        twin_runs(
            def,
            labels,
            lines_parsed(def, files, a, source, pos, depth),
            lines_parsed(def, files, b, source, pos, depth),
        ),
    decreases source.tokens@.len() - pos,
{
    if pos < source.tokens@.len() {
        lemma_data_line(def, files, a, source, pos, depth);
        lemma_data_line(def, files, b, source, pos, depth);
        line_keeps_state(def, files, a, source, pos, depth);
        line_keeps_state(def, files, b, source, pos, depth);
        let x = line_parsed(def, files, a, source, pos, depth);
        let y = line_parsed(def, files, b, source, pos, depth);
        if x.result is Ok || y.result is Ok {
            let width = width_at(source, pos);
            lemma_twin_data(def, labels, a, b, source, pos + 2, width);
            if x.result is Ok && y.result is Ok && twins(def, labels, x.st, y.st) {
                lemma_twin_lines(def, files, labels, x.st, y.st, source, x.pos, depth);
            } else {
                if x.result is Ok {
                    lemma_failing_lines(def, files, labels, x.st, source, x.pos, depth);
                }
                if y.result is Ok {
                    lemma_failing_lines(def, files, labels, y.st, source, y.pos, depth);
                }
            }
        }
    }
}

proof fn lemma_data_keeps_labels(
    def: Definition,
    files: IncludedFiles,
    st: State,
    source: Source,
    pos: int,
    depth: nat,
)
    requires
        source.wf(),
        files.wf(),
        only_data(source),
        between_lines(source, pos),
        0 <= pos,
        st.labels.has_context(),
    ensures
        lines_parsed(def, files, st, source, pos, depth).0.labels == st.labels,
    decreases source.tokens@.len() - pos,
{
    if pos < source.tokens@.len() {
        lemma_data_line(def, files, st, source, pos, depth);
        line_keeps_state(def, files, st, source, pos, depth);
        let line = line_parsed(def, files, st, source, pos, depth);
        let width = width_at(source, pos);
        lemma_data_parsed(def, st, source, pos + 2, width);
        lemma_ends_between_lines(def, st, source, pos + 2, width);
        if line.result is Ok {
            lemma_data_keeps_labels(def, files, line.st, source, line.pos, depth);
        }
    }
}

/// Data directives stand for the same bits whether the constants that they use stand before or
/// behind them: a program of constants and then data directives has the same bits as one of the
/// data directives and then the constants, and one fails if the other does. The values of the
/// constants may not depend on where these stand.
pub proof fn constants_may_stand_behind_data(
    def: Definition,
    files: IncludedFiles,
    before: Source,
    behind: Source,
    constants: Source,
    data: Source,
)
    requires
        def.wf(),
        files.wf(),
        before.wf(),
        behind.wf(),
        constants.wf(),
        data.wf(),
        only_constants(constants),
        only_data(data),
        ends_its_lines(constants),
        ends_its_lines(data),
        joins(before, constants, data),
        joins(behind, data, constants),
    ensures
        same_bits(assembled(def, before, files), assembled(def, behind, files)),
{
    let depth = files.max_depth as nat;
    let start = initial_state();
    let data_start = file_start(data);
    let constants_start = file_start(constants);
    runs_of_lines_follow_one_another(def, files, start, before, constants, data, depth);
    runs_of_lines_follow_one_another(def, files, start, behind, data, constants, depth);
    let one = read_in_turn(def, files, start, constants, data, depth);
    let other = read_in_turn(def, files, start, data, constants, depth);
    second_pass_ignores_spans(def, one.0, first_pass(def, before, files).0);
    second_pass_ignores_spans(def, other.0, first_pass(def, behind, files).0);
    lemma_after_linebreaks(data, 0);
    lemma_after_linebreaks(constants, 0);
    lemma_between_lines(data, 0);
    lemma_between_lines(constants, 0);

    let defined = lines_parsed(def, files, start, constants, constants_start, depth);
    let put = lines_parsed(def, files, start, data, data_start, depth);
    let labels = defined.0.labels;
    lemma_data_keeps_labels(def, files, start, data, data_start, depth);
    lemma_constants_alike(def, files, start, put.0, constants, constants_start, depth);
    lemma_constants_alike(def, files, start, start, constants, constants_start, depth);
    assert(no_locals(start.labels));
    if defined.1 is Ok {
        lines_keep_state(def, files, start, constants, constants_start, depth);
        let mid = defined.0;
        assert(mid == (State { labels, ..start }));
        assert(labels_kept(labels, labels));
        assert(State { labels, ..mid } == State { labels, ..start });
        assert(twins(def, labels, mid, start));
        lemma_twin_lines(def, files, labels, mid, start, data, data_start, depth);
        lemma_data_keeps_labels(def, files, mid, data, data_start, depth);
        assert(one.0 == (State { labels, ..one.0 }));
    }
}

} // verus!
