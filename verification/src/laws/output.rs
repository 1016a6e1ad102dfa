//! Where data and instructions are put, and which bits they are.

use vstd::prelude::*;
use crate::assembler::instruction_wf;
use crate::bitvec::{laid, overlay, Piece};
use crate::definition::Definition;
use crate::error::FailureView;
use crate::expr::{Expression, ExpressionValue};
use crate::integer::{low_bits, low_slice_is_low_bits, Integer};
use crate::label::Labels;
use crate::laws::labels::{known_production_stays, known_value_stays, labels_kept};
use crate::laws::lines::pieces_change_output_only;
use crate::model::{
    advanced,
    current_context,
    data_item,
    expr_resolvable,
    expr_value,
    expression_completed,
    expression_output,
    instruction_output,
    instruction_resolvable,
    instruction_resolved,
    pieces_written,
    production_value,
    written_at,
    InstructionView,
    State,
};

verus! {

/// Going on moves the address and the output position by the same amount, and changes nothing
/// else.
pub proof fn positions_move_in_step(def: Definition, st: State, bit_num: int)
    requires
        def.wf(),
        0 <= bit_num,
    ensures
        advanced(def, st, bit_num) matches (after, Ok(_)) ==> {
            &&& after.cur_address - st.cur_address == after.cur_output - st.cur_output
            &&& after.cur_address - st.cur_address == bit_num / def.align_bits as int
            &&& after == (State {
                cur_address: after.cur_address,
                cur_output: after.cur_output,
                ..st
            })
        },
{
    vstd::arithmetic::div_mod::lemma_div_pos_is_pos(bit_num, def.align_bits as int);
}

/// A value that is known takes up the place that a data directive would keep free for one that is
/// not known, and the lowest bits of the value are what is written there.
pub proof fn data_is_low_bits_in_place(
    def: Definition,
    st: State,
    expr: Expression,
    data_width: usize,
    value: Integer,
)
    requires
        def.wf(),
        0 < data_width,
        expr_resolvable(st.labels, expr, current_context(st)),
        expr_value(st.labels, expr, current_context(st), st.cur_address) == Ok::<
            ExpressionValue,
            FailureView,
        >(ExpressionValue::Integer(value)),
    ensures
        expression_output(def, st, expr, data_width) matches (after, Ok(_)) ==> {
            &&& after.output_bits == overlay(
                st.output_bits,
                st.cur_output * def.align_bits,
                low_bits(value.value, data_width as nat),
            )
            &&& advanced(def, st, data_width as int).1 is Ok
            &&& advanced(def, st, data_width as int).0 == (State {
                output_bits: st.output_bits,
                ..after
            })
        },
{
    low_slice_is_low_bits(value, data_width);
    assert(value.sliced((data_width - 1) as usize, 0).width() == data_width);
}

/// The place of a data expression does not depend on its value: what follows it has the same
/// address whether it is written at once or in the second pass.
pub proof fn data_place_is_fixed(def: Definition, st: State, expr: Expression, data_width: usize)
    requires
        def.wf(),
    ensures
        expression_output(def, st, expr, data_width) matches (after, Ok(_)) ==> {
            &&& after.cur_address == st.cur_address + data_width / def.align_bits
            &&& after.cur_output == st.cur_output + data_width / def.align_bits
        },
{
    vstd::arithmetic::div_mod::lemma_div_pos_is_pos(data_width as int, def.align_bits as int);
}

/// Two states that agree on address and output position agree on them after a data expression, too,
/// whatever labels are known in either: the layout does not depend on what is known.
pub proof fn layout_does_not_depend_on_labels(
    def: Definition,
    s: State,
    t: State,
    expr: Expression,
    data_width: usize,
)
    requires
        def.wf(),
        s.cur_address == t.cur_address,
        s.cur_output == t.cur_output,
        expression_output(def, s, expr, data_width).1 is Ok,
        expression_output(def, t, expr, data_width).1 is Ok,
    ensures
        ({
            let a = expression_output(def, s, expr, data_width).0;
            let b = expression_output(def, t, expr, data_width).0;
            let size = data_width / def.align_bits;
            &&& a.cur_address == b.cur_address
            &&& a.cur_output == b.cur_output
            &&& a.cur_address == s.cur_address + size
            &&& a.cur_output == s.cur_output + size
        }),
{
    data_place_is_fixed(def, s, expr, data_width);
    data_place_is_fixed(def, t, expr, data_width);
}

/// The place of an instruction does not depend on its arguments: what follows it has the same
/// address whether it is written at once or in the second pass.
pub proof fn instruction_place_is_fixed(def: Definition, st: State, instr: InstructionView)
    requires
        def.wf(),
        instruction_wf(def, instr),
    ensures
        instruction_output(def, st, instr) matches (after, Ok(_)) ==> {
            let size = def.rules@[instr.rule_index as int].production_bit_num / def.align_bits;
            &&& after.cur_address == st.cur_address + size
            &&& after.cur_output == st.cur_output + size
        },
{
    let bits = def.rules@[instr.rule_index as int].production_bit_num as int;
    vstd::arithmetic::div_mod::lemma_div_pos_is_pos(bits, def.align_bits as int);
    pieces_change_output_only(def, advanced(def, st, bits).0, instr, 0, 0);
}

/// A data expression whose value is known could as well have been left to the second pass: there,
/// whatever labels were added since, the same bits are written at the same place.
pub proof fn data_now_or_later(
    def: Definition,
    st: State,
    later: State,
    expr: Expression,
    data_width: usize,
)
    requires
        def.wf(),
        expr_resolvable(st.labels, expr, current_context(st)),
        labels_kept(st.labels, later.labels),
    ensures
        expression_output(def, st, expr, data_width) matches (after, Ok(_)) ==> ({
            let pending = data_item(st, expr, data_width);
            let value = expr_value(st.labels, expr, current_context(st), st.cur_address)->Ok_0->Integer_0;
            let bits = low_bits(value.value, data_width as nat);
            let index = st.cur_output * def.align_bits;
            &&& after.output_bits == overlay(st.output_bits, index, bits)
            &&& expression_completed(def, later, pending).0 == (State {
                output_bits: overlay(later.output_bits, index, bits),
                ..later
            })
            &&& expression_completed(def, later, pending).1 is Ok
        }),
{
    known_value_stays(st.labels, later.labels, expr, current_context(st), st.cur_address);
    match expr_value(st.labels, expr, current_context(st), st.cur_address) {
        Ok(ExpressionValue::Integer(value)) => {
            if data_width > 0 {
                low_slice_is_low_bits(value, data_width);
                assert(value.sliced((data_width - 1) as usize, 0).width() == data_width);
            }
        },
        _ => {},
    }
}

/// The pieces that the production of an instruction consists of, from number `k` on; `width`
/// addresses are taken up by the pieces before.
pub open spec fn instruction_pieces(
    def: Definition,
    labels: Labels,
    instr: InstructionView,
    k: int,
    width: int,
) -> Seq<Piece>
    decreases def.rules@[instr.rule_index as int].production_segments@.len() - k,
{
    let rule = def.rules@[instr.rule_index as int];
    if 0 <= k < rule.production_segments@.len() {
        match production_value(labels, rule, instr, rule.production_segments@[k]) {
            Ok(ExpressionValue::Integer(integer)) => seq![
                Piece { index: (instr.output + width) * def.align_bits, bits: integer.bits() },
            ] + instruction_pieces(
                def,
                labels,
                instr,
                k + 1,
                width + integer.width() as int / def.align_bits as int,
            ),
            _ => Seq::empty(),
        }
    } else {
        Seq::empty()
    }
}

/// Writing an instruction lays down its pieces, and changes nothing but the output.
pub proof fn instruction_lays_its_pieces(
    def: Definition,
    st: State,
    instr: InstructionView,
    k: int,
    width: int,
)
    requires
        0 <= k,
    ensures
        pieces_written(def, st, instr, k, width) matches (after, Ok(_)) ==> after == (State {
            output_bits: laid(
                st.output_bits,
                instruction_pieces(def, st.labels, instr, k, width),
            ),
            ..st
        }),
    decreases def.rules@[instr.rule_index as int].production_segments@.len() - k,
{
    let rule = def.rules@[instr.rule_index as int];
    if k < rule.production_segments@.len() {
        match production_value(st.labels, rule, instr, rule.production_segments@[k]) {
            Ok(ExpressionValue::Integer(integer)) => {
                let next = written_at(def, st, instr.output + width, integer).0;
                let next_width = width + integer.width() as int / def.align_bits as int;
                let rest = instruction_pieces(def, st.labels, instr, k + 1, next_width);
                instruction_lays_its_pieces(def, next, instr, k + 1, next_width);
                assert(instruction_pieces(def, st.labels, instr, k, width).drop_first() =~= rest);
            },
            _ => {},
        }
    }
}

proof fn lemma_known_pieces_stay(
    def: Definition,
    st: State,
    later: State,
    instr: InstructionView,
    k: int,
    width: int,
)
    requires
        def.wf(),
        instruction_wf(def, instr),
        instruction_resolvable(st.labels, instr),
        labels_kept(st.labels, later.labels),
        0 <= k,
    ensures
        instruction_pieces(def, later.labels, instr, k, width) == instruction_pieces(
            def,
            st.labels,
            instr,
            k,
            width,
        ),
        pieces_written(def, later, instr, k, width).1 == pieces_written(
            def,
            st,
            instr,
            k,
            width,
        ).1,
    decreases def.rules@[instr.rule_index as int].production_segments@.len() - k,
{
    let rule = def.rules@[instr.rule_index as int];
    assert(rule.wf(def.align_bits));
    if k < rule.production_segments@.len() {
        let expr = rule.production_segments@[k];
        known_production_stays(st.labels, later.labels, rule, instr, expr);
        match production_value(st.labels, rule, instr, expr) {
            Ok(ExpressionValue::Integer(integer)) => {
                let next_width = width + integer.width() as int / def.align_bits as int;
                lemma_known_pieces_stay(
                    def,
                    written_at(def, st, instr.output + width, integer).0,
                    written_at(def, later, instr.output + width, integer).0,
                    instr,
                    k + 1,
                    next_width,
                );
            },
            _ => {},
        }
    }
}

/// An instruction whose arguments are known could as well have been left to the second pass:
/// there, whatever labels were added since, it lays down the same pieces, or fails alike.
pub proof fn instruction_now_or_later(
    def: Definition,
    st: State,
    later: State,
    instr: InstructionView,
)
    requires
        def.wf(),
        instruction_wf(def, instr),
        instruction_resolvable(st.labels, instr),
        labels_kept(st.labels, later.labels),
    ensures
        instruction_pieces(def, later.labels, instr, 0, 0) == instruction_pieces(
            def,
            st.labels,
            instr,
            0,
            0,
        ),
        instruction_resolved(def, later, instr).1 == instruction_resolved(def, st, instr).1,
        instruction_resolved(def, st, instr) matches (after, Ok(_)) ==> {
            let pieces = instruction_pieces(def, st.labels, instr, 0, 0);
            &&& after.output_bits == laid(st.output_bits, pieces)
            &&& instruction_resolved(def, later, instr).0 == (State {
                output_bits: laid(later.output_bits, pieces),
                ..later
            })
        },
{
    lemma_known_pieces_stay(def, st, later, instr, 0, 0);
    instruction_lays_its_pieces(def, st, instr, 0, 0);
    instruction_lays_its_pieces(def, later, instr, 0, 0);
}

} // verus!
