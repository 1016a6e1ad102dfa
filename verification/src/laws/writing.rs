//! What is written, where, and when: data and instructions at once or in the second pass.

use vstd::prelude::*;
use crate::assembler::UnresolvedExpression;
use crate::bitvec::{laid, overlay, Piece};
use crate::definition::Definition;
use crate::error::FailureView;
use crate::expr::{Expression, ExpressionValue};
use crate::integer::{low_bits, low_slice_is_low_bits, Integer};
use crate::label::Labels;
use crate::laws::kinds::worth_here;
use crate::laws::lines::lines_follow_one_another;
use crate::laws::matching::latest_context;
use crate::laws::numbers::pieces_are_laid_one_by_one;
use crate::laws::values::says;
use crate::model::{
    advanced,
    assembled,
    completed,
    expr_resolvable,
    expr_value,
    expression_completed,
    expression_output,
    expressions_completed,
    first_pass,
    instruction_output,
    instruction_resolvable,
    instruction_resolved,
    instructions_completed,
    line_parsed,
    lines_parsed,
    pieces_written,
    production_value,
    written,
    written_at,
    InstructionView,
    State,
    Step,
};
use crate::parser::file_start;
use crate::source::{IncludedFiles, Source};

verus! {

/// A state with its address and its output position moved on by a number of addresses, or the
/// failure where one of them grows too large.
pub open spec fn further(st: State, count: int) -> Step {
    if st.cur_address + count <= usize::MAX && st.cur_output + count <= usize::MAX {
        (
            State {
                cur_address: (st.cur_address + count) as usize,
                cur_output: (st.cur_output + count) as usize,
                ..st
            },
            Ok(()),
        )
    } else {
        (st, Err(FailureView::Overflow))
    }
}

/// Going on by some bits goes on by as many addresses as the bits fill up.
pub proof fn bits_fill_up_addresses(def: Definition, st: State, count: int, rest: int)
    requires
        0 <= count,
        0 <= rest < def.align_bits,
    ensures
        advanced(def, st, count * def.align_bits + rest) == further(st, count),
{
    let align = def.align_bits as int;
    let bits = count * align + rest;
    assert(bits / align == count) by {
        vstd::arithmetic::div_mod::lemma_fundamental_div_mod_converse(bits, align, count, rest);
    }
}

/// An integer is written over what is there, from the first bit of an address on, if a machine
/// integer can hold the position behind it. Nothing else changes.
pub proof fn integers_are_written_at_addresses(
    def: Definition,
    st: State,
    index: int,
    value: Integer,
)
    ensures
        written_at(def, st, index, value) == (if index * def.align_bits + value.bits().len()
            <= usize::MAX {
            (
                State {
                    output_bits: overlay(st.output_bits, index * def.align_bits, value.bits()),
                    ..st
                },
                Ok::<(), FailureView>(()),
            )
        } else {
            (st, Err::<(), FailureView>(FailureView::Overflow))
        }),
{
}

/// An integer that fills up addresses is written at the output position, and the program goes on
/// behind it.
pub proof fn program_goes_on_behind_what_is_written(
    def: Definition,
    st: State,
    value: Integer,
    count: int,
)
    requires
        def.align_bits > 0,
        0 <= count,
        value.bits().len() == count * def.align_bits,
    ensures
        ({
            let start = st.cur_output * def.align_bits;
            let after = State {
                output_bits: overlay(st.output_bits, start, value.bits()),
                ..st
            };
            written(def, st, value) == (if start + value.bits().len() <= usize::MAX {
                further(after, count)
            } else {
                (st, Err(FailureView::Overflow))
            })
        }),
{
    bits_fill_up_addresses(
        def,
        written_at(def, st, st.cur_output as int, value).0,
        count,
        0,
    );
}

// ---- Data ----

/// A value of a data directive that is known is written at once: its lowest bits, at the output
/// position, and the program goes on behind them.
pub proof fn known_data_is_written_at_once(
    def: Definition,
    st: State,
    expr: Expression,
    count: usize,
)
    requires
        st.labels.wf(),
        def.align_bits > 0,
        count * def.align_bits <= usize::MAX,
        expr_resolvable(st.labels, expr, latest_context(st)),
    ensures
        ({
            let width = count * def.align_bits;
            let step = expression_output(def, st, expr, width as usize);
            let start = st.cur_output * def.align_bits;
            match worth_here(st, expr) {
                Ok(ExpressionValue::Integer(value)) => {
                    let after = State {
                        output_bits: overlay(
                            st.output_bits,
                            start,
                            low_bits(value.value, width as nat),
                        ),
                        ..st
                    };
                    if width > 0 && start + width <= usize::MAX {
                        step == further(after, count as int)
                    } else {
                        step == (st, Err::<(), FailureView>(FailureView::Overflow))
                    }
                },
                Ok(ExpressionValue::Boolean(_)) => step == (
                    st,
                    Err::<(), FailureView>(says("invalid expression type"@, expr.span)),
                ),
                Err(failure) => step == (st, Err::<(), FailureView>(failure)),
            }
        }),
{
    let width = count * def.align_bits;
    assert(0 <= width) by (nonlinear_arith)
        requires
            width == count * def.align_bits,
    ;
    match worth_here(st, expr) {
        Ok(ExpressionValue::Integer(value)) => {
            if width > 0 {
                low_slice_is_low_bits(value, width as usize);
                let piece = value.sliced((width - 1) as usize, 0);
                assert(piece.bits().len() == width);
                let after = written_at(def, st, st.cur_output as int, piece).0;
                bits_fill_up_addresses(def, after, count as int, 0);
            }
        },
        _ => {},
    }
}

/// An expression of a data directive whose value is not known waits for the second pass, with the
/// context, the address and the output position that it has where it stands; room is kept for it.
pub proof fn unknown_data_waits(def: Definition, st: State, expr: Expression, count: usize)
    requires
        st.labels.wf(),
        def.align_bits > 0,
        count * def.align_bits <= usize::MAX,
        !expr_resolvable(st.labels, expr, latest_context(st)),
    ensures
        ({
            let width = count * def.align_bits;
            let waiting = UnresolvedExpression {
                expr,
                label_ctx: latest_context(st),
                address: st.cur_address,
                output: st.cur_output,
                data_width: width as usize,
            };
            expression_output(def, st, expr, width as usize) == further(
                State { unresolved_expressions: st.unresolved_expressions.push(waiting), ..st },
                count as int,
            )
        }),
{
    let width = count * def.align_bits;
    assert(0 <= width) by (nonlinear_arith)
        requires
            width == count * def.align_bits,
    ;
    let waiting = UnresolvedExpression {
        expr,
        label_ctx: latest_context(st),
        address: st.cur_address,
        output: st.cur_output,
        data_width: width as usize,
    };
    bits_fill_up_addresses(
        def,
        State { unresolved_expressions: st.unresolved_expressions.push(waiting), ..st },
        count as int,
        0,
    );
}

/// What waited is written in the second pass as it would have been written at once: the lowest bits
/// of the value that the expression has in its own context and at its own address, at its own
/// output position.
pub proof fn waiting_data_is_written_in_its_place(
    def: Definition,
    st: State,
    waiting: UnresolvedExpression,
)
    ensures
        ({
            let step = expression_completed(def, st, waiting);
            let start = waiting.output * def.align_bits;
            let worth = expr_value(
                st.labels,
                waiting.expr,
                waiting.label_ctx,
                waiting.address,
            );
            match worth {
                Ok(ExpressionValue::Integer(value)) => if waiting.data_width > 0 && start
                    + waiting.data_width <= usize::MAX {
                    step == (
                        State {
                            output_bits: overlay(
                                st.output_bits,
                                start,
                                low_bits(value.value, waiting.data_width as nat),
                            ),
                            ..st
                        },
                        Ok::<(), FailureView>(()),
                    )
                } else {
                    step == (st, Err::<(), FailureView>(FailureView::Overflow))
                },
                Ok(ExpressionValue::Boolean(_)) => step == (
                    st,
                    Err::<(), FailureView>(says("invalid expression"@, waiting.expr.span)),
                ),
                Err(failure) => step == (st, Err::<(), FailureView>(failure)),
            }
        }),
{
    match expr_value(st.labels, waiting.expr, waiting.label_ctx, waiting.address) {
        Ok(ExpressionValue::Integer(value)) => {
            if waiting.data_width > 0 {
                low_slice_is_low_bits(value, waiting.data_width);
                let piece = value.sliced((waiting.data_width - 1) as usize, 0);
                assert(piece.bits().len() == waiting.data_width);
            }
        },
        _ => {},
    }
}

// ---- Instructions ----

/// The first `count` pieces of the production of an instruction are worth the given integers, and
/// lie at the given offsets from the place of the instruction, in addresses: the first at the place
/// itself, and each next one as many addresses further on as the piece before fills up.
pub open spec fn pieces_are(
    def: Definition,
    labels: Labels,
    instr: InstructionView,
    count: int,
    values: Seq<Integer>,
    offsets: Seq<int>,
) -> bool {
    let rule = def.rules@[instr.rule_index as int];
    &&& 0 <= count <= rule.production_segments@.len()
    &&& values.len() == count
    &&& offsets.len() == count + 1
    &&& offsets[0] == 0
    &&& forall|k: int|
        #![trigger values[k]]
        0 <= k < count ==> {
            &&& production_value(labels, rule, instr, rule.production_segments@[k]) == Ok::<
                ExpressionValue,
                FailureView,
            >(ExpressionValue::Integer(values[k]))
            &&& (instr.output + offsets[k]) * def.align_bits + values[k].bits().len() <= usize::MAX
            &&& (offsets[k + 1] - offsets[k]) * def.align_bits <= values[k].bits().len()
                < (offsets[k + 1] - offsets[k] + 1) * def.align_bits
        }
}

/// The bits of the pieces, and where they are written.
pub open spec fn pieces_at(
    def: Definition,
    instr: InstructionView,
    values: Seq<Integer>,
    offsets: Seq<int>,
) -> Seq<Piece> {
    Seq::new(
        values.len(),
        |k: int|
            Piece {
                index: (instr.output + offsets[k]) * def.align_bits,
                bits: values[k].bits(),
            },
    )
}

/// The state in which some pieces of an instruction are written.
pub open spec fn with_pieces(
    def: Definition,
    st: State,
    instr: InstructionView,
    values: Seq<Integer>,
    offsets: Seq<int>,
) -> State {
    State {
        output_bits: laid(st.output_bits, pieces_at(def, instr, values, offsets)),
        ..st
    }
}

proof fn lemma_pieces_go_on(
    def: Definition,
    st: State,
    instr: InstructionView,
    count: int,
    values: Seq<Integer>,
    offsets: Seq<int>,
)
    requires
        def.align_bits > 0,
        pieces_are(def, st.labels, instr, count, values, offsets),
    ensures
        pieces_written(def, st, instr, 0, 0) == pieces_written(
            def,
            with_pieces(def, st, instr, values, offsets),
            instr,
            count,
            offsets[count],
        ),
    decreases count,
{
    if count == 0 {
        assert(pieces_at(def, instr, values, offsets) =~= Seq::empty());
        assert(with_pieces(def, st, instr, values, offsets) =~= st);
    } else {
        let k = count - 1;
        let before = values.drop_last();
        let starts = offsets.drop_last();
        assert forall|j: int| #![trigger before[j]] 0 <= j < k implies before[j] == values[j]
            && starts[j] == offsets[j] && starts[j + 1] == offsets[j + 1] by {}
        assert(pieces_are(def, st.labels, instr, k, before, starts)) by {
            let rule = def.rules@[instr.rule_index as int];
            assert forall|j: int| #![trigger before[j]] 0 <= j < k implies {
                &&& production_value(st.labels, rule, instr, rule.production_segments@[j]) == Ok::<
                    ExpressionValue,
                    FailureView,
                >(ExpressionValue::Integer(before[j]))
                &&& (instr.output + starts[j]) * def.align_bits + before[j].bits().len()
                    <= usize::MAX
                &&& (starts[j + 1] - starts[j]) * def.align_bits <= before[j].bits().len() < (
                starts[j + 1] - starts[j] + 1) * def.align_bits
            } by {
                let same = values[j];
            }
        }
        lemma_pieces_go_on(def, st, instr, k, before, starts);
        let last = values[k];
        let piece = Piece {
            index: (instr.output + offsets[k]) * def.align_bits,
            bits: last.bits(),
        };
        assert(pieces_at(def, instr, values, offsets) =~= pieces_at(
            def,
            instr,
            before,
            starts,
        ).push(piece));
        pieces_are_laid_one_by_one(
            st.output_bits,
            pieces_at(def, instr, before, starts),
            piece,
        );
        let align = def.align_bits as int;
        let filled = offsets[k + 1] - offsets[k];
        let bits = last.bits().len() as int;
        assert(filled * align <= bits < (filled + 1) * align);
        assert((filled + 1) * align == filled * align + align) by (nonlinear_arith);
        vstd::arithmetic::div_mod::lemma_fundamental_div_mod_converse(
            bits,
            align,
            filled,
            bits - filled * align,
        );
        assert(last.width() as int / align == filled);
        assert(starts[k] == offsets[k]);
    }
}

/// The pieces of the production of an instruction are written one behind the other, from the output
/// position of the instruction on. The first piece that has no value, is no integer or lies too far
/// out ends the writing: the pieces before it stay.
pub proof fn pieces_are_written_one_behind_the_other(
    def: Definition,
    st: State,
    instr: InstructionView,
    count: int,
    values: Seq<Integer>,
    offsets: Seq<int>,
)
    requires
        def.align_bits > 0,
        pieces_are(def, st.labels, instr, count, values, offsets),
    ensures
        ({
            let rule = def.rules@[instr.rule_index as int];
            let step = instruction_resolved(def, st, instr);
            let done = with_pieces(def, st, instr, values, offsets);
            if count == rule.production_segments@.len() {
                step == (done, Ok::<(), FailureView>(()))
            } else {
                let expr = rule.production_segments@[count];
                match production_value(st.labels, rule, instr, expr) {
                    Ok(ExpressionValue::Integer(value)) => (instr.output + offsets[count])
                        * def.align_bits + value.bits().len() > usize::MAX ==> step == (
                        done,
                        Err::<(), FailureView>(FailureView::Overflow),
                    ),
                    Ok(ExpressionValue::Boolean(_)) => step == (
                        done,
                        Err::<(), FailureView>(
                            says("invalid production expression type"@, expr.span),
                        ),
                    ),
                    Err(failure) => step == (done, Err::<(), FailureView>(failure)),
                }
            }
        }),
{
    lemma_pieces_go_on(def, st, instr, count, values, offsets);
}

/// An instruction takes up the room that its rule asks for. Where all its arguments are known it is
/// written at once, and otherwise it waits for the second pass as it is.
pub proof fn instruction_is_written_or_waits(
    def: Definition,
    st: State,
    instr: InstructionView,
    count: int,
)
    requires
        def.align_bits > 0,
        0 <= count,
        def.rules@[instr.rule_index as int].production_bit_num == count * def.align_bits,
    ensures
        instruction_output(def, st, instr) == (match further(st, count) {
            (after, Ok(_)) => if instruction_resolvable(st.labels, instr) {
                instruction_resolved(def, after, instr)
            } else {
                (
                    State {
                        unresolved_instructions: st.unresolved_instructions.push(instr),
                        ..after
                    },
                    Ok(()),
                )
            },
            (after, Err(failure)) => (st, Err(failure)),
        }),
{
    bits_fill_up_addresses(def, st, count, 0);
}

// ---- The second pass ----

/// A state in which nothing waits.
pub open spec fn nothing_waits(st: State) -> bool {
    st.unresolved_instructions.len() == 0 && st.unresolved_expressions.len() == 0
}

proof fn lemma_one_more_instruction(
    def: Definition,
    st: State,
    instrs: Seq<InstructionView>,
    last: InstructionView,
    k: int,
)
    requires
        0 <= k <= instrs.len(),
    ensures
        instructions_completed(def, st, instrs.push(last), k) == (match instructions_completed(
            def,
            st,
            instrs,
            k,
        ) {
            (after, Ok(_)) => instruction_resolved(def, after, last),
            (after, Err(failure)) => (after, Err(failure)),
        }),
    decreases instrs.len() - k,
{
    let all = instrs.push(last);
    if k < instrs.len() {
        assert(all[k] == instrs[k]);
        match instruction_resolved(def, st, instrs[k]) {
            (after, Ok(_)) => {
                lemma_one_more_instruction(def, after, instrs, last, k + 1);
            },
            (_, Err(_)) => {},
        }
    } else {
        assert(all[k] == last);
        let step = instruction_resolved(def, st, last);
        reveal_with_fuel(instructions_completed, 2);
        match step {
            (_, Ok(done)) => {
                assert(done == ());
            },
            (_, Err(_)) => {},
        }
    }
}

proof fn lemma_one_more_expression(
    def: Definition,
    st: State,
    exprs: Seq<UnresolvedExpression>,
    last: UnresolvedExpression,
    k: int,
)
    requires
        0 <= k <= exprs.len(),
    ensures
        expressions_completed(def, st, exprs.push(last), k) == (match expressions_completed(
            def,
            st,
            exprs,
            k,
        ) {
            (after, Ok(_)) => expression_completed(def, after, last),
            (after, Err(failure)) => (after, Err(failure)),
        }),
    decreases exprs.len() - k,
{
    let all = exprs.push(last);
    if k < exprs.len() {
        assert(all[k] == exprs[k]);
        match expression_completed(def, st, exprs[k]) {
            (after, Ok(_)) => {
                lemma_one_more_expression(def, after, exprs, last, k + 1);
            },
            (_, Err(_)) => {},
        }
    } else {
        assert(all[k] == last);
        let step = expression_completed(def, st, last);
        reveal_with_fuel(expressions_completed, 2);
        match step {
            (_, Ok(done)) => {
                assert(done == ());
            },
            (_, Err(_)) => {},
        }
    }
}

/// The second pass takes up what waits in the order in which it began to wait. Where nothing waits,
/// it changes nothing; one more instruction at the end is written after all the others, if these
/// could be written.
pub proof fn waiting_instructions_are_taken_up_in_order(
    def: Definition,
    st: State,
    last: InstructionView,
)
    requires
        st.unresolved_expressions.len() == 0,
    ensures
        nothing_waits(st) ==> completed(def, st) == (st, Ok::<(), FailureView>(())),
        completed(
            def,
            State {
                unresolved_instructions: st.unresolved_instructions.push(last),
                ..st
            },
        ) == (match completed(def, st) {
            (after, Ok(_)) => instruction_resolved(def, after, last),
            (after, Err(failure)) => (after, Err(failure)),
        }),
        completed(def, st).0.unresolved_instructions.len() == 0,
        completed(def, st).0.unresolved_expressions.len() == 0,
{
    let none = Seq::<UnresolvedExpression>::empty();
    assert(st.unresolved_expressions =~= none);
    if nothing_waits(st) {
        assert((State { unresolved_instructions: Seq::empty(), ..st }) =~= st);
        assert((State { unresolved_expressions: none, ..st }) =~= st);
    }
    let free = State { unresolved_instructions: Seq::<InstructionView>::empty(), ..st };
    lemma_one_more_instruction(def, free, st.unresolved_instructions, last, 0);
    lemma_instructions_keep_queues(def, free, st.unresolved_instructions, 0);
    lemma_instructions_keep_queues(
        def,
        free,
        st.unresolved_instructions.push(last),
        0,
    );
    let done = instructions_completed(def, free, st.unresolved_instructions, 0);
    assert((State { unresolved_expressions: none, ..done.0 }) =~= done.0);
    let more = instructions_completed(def, free, st.unresolved_instructions.push(last), 0);
    assert((State { unresolved_expressions: none, ..more.0 }) =~= more.0);
    match more {
        (_, Ok(unit)) => {
            assert(unit == ());
        },
        (_, Err(_)) => {},
    }
    match done {
        (_, Ok(unit)) => {
            assert(unit == ());
        },
        (_, Err(_)) => {},
    }
}

proof fn lemma_instructions_keep_queues(
    def: Definition,
    st: State,
    instrs: Seq<InstructionView>,
    k: int,
)
    requires
        0 <= k <= instrs.len(),
    ensures
        ({
            let after = instructions_completed(def, st, instrs, k).0;
            &&& after.unresolved_instructions == st.unresolved_instructions
            &&& after.unresolved_expressions == st.unresolved_expressions
        }),
    decreases instrs.len() - k,
{
    if k < instrs.len() {
        crate::laws::lines::pieces_change_output_only(def, st, instrs[k], 0, 0);
        match instruction_resolved(def, st, instrs[k]) {
            (after, Ok(_)) => {
                lemma_instructions_keep_queues(def, after, instrs, k + 1);
            },
            (_, Err(_)) => {},
        }
    }
}

/// The data that waits is taken up behind all instructions, and in its order: one more expression
/// at the end is written after all the others. Where an instruction fails, the data goes on
/// waiting.
pub proof fn waiting_data_is_taken_up_behind_instructions(
    def: Definition,
    st: State,
    last: UnresolvedExpression,
)
    ensures
        ({
            let instructions_only = completed(
                def,
                State { unresolved_expressions: Seq::empty(), ..st },
            );
            let one_more = State {
                unresolved_expressions: st.unresolved_expressions.push(last),
                ..st
            };
            match instructions_only {
                (after, Ok(_)) => completed(def, one_more) == (match completed(def, st) {
                    (after, Ok(_)) => expression_completed(def, after, last),
                    (after, Err(failure)) => (after, Err(failure)),
                }),
                (after, Err(failure)) => completed(def, st) == (
                    State { unresolved_expressions: st.unresolved_expressions, ..after },
                    Err::<(), FailureView>(failure),
                ),
            }
        }),
{
    let none = Seq::<UnresolvedExpression>::empty();
    let instrs = st.unresolved_instructions;
    let free = State { unresolved_instructions: Seq::<InstructionView>::empty(), ..st };
    let bare = State { unresolved_expressions: none, ..free };
    let one_more = State {
        unresolved_expressions: st.unresolved_expressions.push(last),
        ..free
    };
    lemma_queue_is_not_read(def, bare, free, instrs, 0);
    lemma_queue_is_not_read(def, bare, one_more, instrs, 0);
    lemma_instructions_keep_queues(def, bare, instrs, 0);
    lemma_instructions_keep_queues(def, free, instrs, 0);
    let done = instructions_completed(def, bare, instrs, 0);
    match done {
        (after, Ok(_)) => {
            assert((State { unresolved_expressions: none, ..after }) =~= after);
            lemma_one_more_expression(def, after, st.unresolved_expressions, last, 0);
        },
        (_, Err(_)) => {},
    }
}

/// Writing instructions does not look at the data that waits.
proof fn lemma_queue_is_not_read(
    def: Definition,
    bare: State,
    st: State,
    instrs: Seq<InstructionView>,
    k: int,
)
    requires
        0 <= k <= instrs.len(),
        bare == (State { unresolved_expressions: bare.unresolved_expressions, ..st }),
    ensures
        instructions_completed(def, st, instrs, k).1 == instructions_completed(
            def,
            bare,
            instrs,
            k,
        ).1,
        instructions_completed(def, bare, instrs, k).0 == (State {
            unresolved_expressions: bare.unresolved_expressions,
            ..instructions_completed(def, st, instrs, k).0
        }),
        instructions_completed(def, st, instrs, k).0.unresolved_expressions
            == st.unresolved_expressions,
    decreases instrs.len() - k,
{
    lemma_instructions_keep_queues(def, st, instrs, k);
    if k < instrs.len() {
        lemma_queue_is_not_read_by_pieces(def, bare, st, instrs[k], 0, 0);
        match instruction_resolved(def, st, instrs[k]) {
            (after, Ok(_)) => {
                lemma_queue_is_not_read(
                    def,
                    instruction_resolved(def, bare, instrs[k]).0,
                    after,
                    instrs,
                    k + 1,
                );
            },
            (_, Err(_)) => {},
        }
    }
}

proof fn lemma_queue_is_not_read_by_pieces(
    def: Definition,
    bare: State,
    st: State,
    instr: InstructionView,
    k: int,
    width: int,
)
    requires
        0 <= k,
        bare == (State { unresolved_expressions: bare.unresolved_expressions, ..st }),
    ensures
        pieces_written(def, st, instr, k, width).1 == pieces_written(
            def,
            bare,
            instr,
            k,
            width,
        ).1,
        pieces_written(def, bare, instr, k, width).0 == (State {
            unresolved_expressions: bare.unresolved_expressions,
            ..pieces_written(def, st, instr, k, width).0
        }),
    decreases def.rules@[instr.rule_index as int].production_segments@.len() - k,
{
    let rule = def.rules@[instr.rule_index as int];
    if k < rule.production_segments@.len() {
        match production_value(st.labels, rule, instr, rule.production_segments@[k]) {
            Ok(ExpressionValue::Integer(integer)) => {
                let a = written_at(def, st, instr.output + width, integer);
                let b = written_at(def, bare, instr.output + width, integer);
                if a.1 is Ok {
                    lemma_queue_is_not_read_by_pieces(
                        def,
                        b.0,
                        a.0,
                        instr,
                        k + 1,
                        width + integer.width() as int / def.align_bits as int,
                    );
                }
            },
            _ => {},
        }
    }
}

// ---- The whole ----

/// Before the first line, address and output position are zero, no label is known, nothing waits
/// and nothing is written; there is one context.
pub open spec fn untouched() -> State {
    State {
        cur_address: 0,
        cur_output: 0,
        labels: Labels { globals: Map::empty(), locals: seq![Map::empty()] },
        unresolved_instructions: Seq::empty(),
        unresolved_expressions: Seq::empty(),
        output_bits: Seq::empty(),
    }
}

/// A file is read line by line, up to its end or to the first line that fails.
pub proof fn file_is_read_line_by_line(
    def: Definition,
    files: IncludedFiles,
    st: State,
    source: Source,
    pos: int,
    depth: nat,
)
    requires
        source.wf(),
        files.wf(),
        st.labels.wf(),
        0 <= pos <= source.tokens@.len(),
    ensures
        ({
            let all = lines_parsed(def, files, st, source, pos, depth);
            if pos == source.tokens@.len() {
                all == (st, Ok::<(), FailureView>(()))
            } else {
                let line = line_parsed(def, files, st, source, pos, depth);
                match line.result {
                    Ok(_) => pos < line.pos <= source.tokens@.len() && all == lines_parsed(
                        def,
                        files,
                        line.st,
                        source,
                        line.pos,
                        depth,
                    ),
                    Err(failure) => all == (line.st, Err::<(), FailureView>(failure)),
                }
            }
        }),
{
    if pos < source.tokens@.len() {
        lines_follow_one_another(def, files, st, source, pos, depth);
        crate::laws::lines::line_keeps_state(def, files, st, source, pos, depth);
    }
}

/// The first pass reads the file from its start on, beginning with nothing; the second pass takes
/// up what waits then; and the bits of the program are those that are written in the end.
pub proof fn program_is_read_and_then_completed(
    def: Definition,
    source: Source,
    files: IncludedFiles,
)
    ensures
        ({
            let read = lines_parsed(
                def,
                files,
                untouched(),
                source,
                file_start(source),
                files.max_depth as nat,
            );
            &&& first_pass(def, source, files) == read
            &&& assembled(def, source, files) == (match read {
                (st, Ok(_)) => match completed(def, st) {
                    (done, Ok(_)) => Ok::<Seq<bool>, FailureView>(done.output_bits),
                    (_, Err(failure)) => Err(failure),
                },
                (_, Err(failure)) => Err(failure),
            })
        }),
{
}

} // verus!
