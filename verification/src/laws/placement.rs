//! Where every bit of the output comes from: the program puts out data and instructions, and the
//! labels that it ends with say which bits these are, wherever in the program they were used.

use vstd::prelude::*;
use crate::assembler::{instruction_wf, UnresolvedExpression};
use crate::bitvec::{
    bit_at,
    laid,
    laid_joins,
    laid_reads_back,
    later_pieces_decide,
    piece_bit,
    Piece,
};
use crate::definition::Definition;
use crate::expr::{Expression, ExpressionValue};
use crate::integer::{low_bits, low_slice_is_low_bits};
use crate::label::Labels;
use crate::laws::labels::{known_value_stays, labels_kept};
use crate::laws::lines::{
    lemma_after_linebreaks,
    lemma_asking_directive,
    lemma_expression_output_keeps,
    lemma_found,
    lemma_labels_kept_transitive,
    lemma_state_kept_reflexive,
    line_keeps_state,
    lines_keep_state,
    pieces_change_output_only,
};
use crate::laws::output::{instruction_lays_its_pieces, instruction_now_or_later, instruction_pieces};
use crate::laws::rules::selected_instruction_is_complete;
use crate::model::{
    advanced,
    assembled,
    current_context,
    data_directive_width,
    data_item,
    data_parsed,
    directive_name_read,
    directive_parsed,
    expr_resolvable,
    expr_value,
    expression_completed,
    expression_output,
    expressions_completed,
    first_pass,
    initial_state,
    instruction_output,
    instruction_resolvable,
    instruction_resolved,
    instructions_completed,
    line_parsed,
    lines_parsed,
    rule_selected,
    InstructionView,
    State,
};
use crate::parser::{expression_read, file_start, string_read};
use crate::source::{IncludedFiles, Source};

verus! {

/// What a program puts out: an expression of a data directive or an instruction.
pub enum Item {
    Data(UnresolvedExpression),
    Instruction(InstructionView),
}

/// An item, and whether its values are known where it stands.
pub struct Placed {
    pub item: Item,
    pub known: bool,
}

/// The pieces that an item lays down, where the labels have the given values.
pub open spec fn item_pieces(def: Definition, labels: Labels, item: Item) -> Seq<Piece> {
    match item {
        Item::Data(data) => match expr_value(labels, data.expr, data.label_ctx, data.address) {
            Ok(ExpressionValue::Integer(integer)) => seq![
                Piece {
                    index: data.output * def.align_bits,
                    bits: low_bits(integer.value, data.data_width as nat),
                },
            ],
            _ => Seq::empty(),
        },
        Item::Instruction(instr) => instruction_pieces(def, labels, instr, 0, 0),
    }
}

/// The bit that an item puts at position `i` of the output, if it puts one there.
pub open spec fn item_bit(def: Definition, labels: Labels, item: Item, i: int) -> Option<bool> {
    piece_bit(item_pieces(def, labels, item), i)
}

/// The pieces that items lay down, one item after the other.
pub open spec fn all_pieces(def: Definition, labels: Labels, items: Seq<Item>) -> Seq<Piece>
    decreases items.len(),
{
    if items.len() == 0 {
        Seq::empty()
    } else {
        all_pieces(def, labels, items.drop_last()) + item_pieces(def, labels, items.last())
    }
}

/// The items whose values are known where they stand.
pub open spec fn known_items(placed: Seq<Placed>) -> Seq<Item>
    decreases placed.len(),
{
    if placed.len() == 0 {
        Seq::empty()
    } else if placed.last().known {
        known_items(placed.drop_last()).push(placed.last().item)
    } else {
        known_items(placed.drop_last())
    }
}

/// The instructions whose values are not known where they stand.
pub open spec fn waiting_instructions(placed: Seq<Placed>) -> Seq<Item>
    decreases placed.len(),
{
    if placed.len() == 0 {
        Seq::empty()
    } else if !placed.last().known && placed.last().item is Instruction {
        waiting_instructions(placed.drop_last()).push(placed.last().item)
    } else {
        waiting_instructions(placed.drop_last())
    }
}

/// The data expressions whose values are not known where they stand.
pub open spec fn waiting_data(placed: Seq<Placed>) -> Seq<Item>
    decreases placed.len(),
{
    if placed.len() == 0 {
        Seq::empty()
    } else if !placed.last().known && placed.last().item is Data {
        waiting_data(placed.drop_last()).push(placed.last().item)
    } else {
        waiting_data(placed.drop_last())
    }
}

/// The order in which items are written: first those whose values are known where they stand, then
/// the other instructions, and at last the other data.
pub open spec fn writing_order(placed: Seq<Placed>) -> Seq<Item> {
    known_items(placed) + waiting_instructions(placed) + waiting_data(placed)
}

/// An expression of a data directive as an item.
pub open spec fn placed_data(st: State, expr: Expression, data_width: usize) -> Placed {
    Placed {
        item: Item::Data(data_item(st, expr, data_width)),
        known: expr_resolvable(st.labels, expr, current_context(st)),
    }
}

/// An instruction as an item.
pub open spec fn placed_instruction(st: State, instr: InstructionView) -> Placed {
    Placed {
        item: Item::Instruction(instr),
        known: instruction_resolvable(st.labels, instr),
    }
}

/// The items of a data directive.
pub open spec fn data_items(
    def: Definition,
    st: State,
    source: Source,
    pos: int,
    data_width: usize,
) -> Seq<Placed>
    decreases source.tokens@.len() - pos,
{
    match expression_read(source, pos) {
        Ok((expr, next)) => {
            let placed = placed_data(st, expr, data_width);
            let after = expression_output(def, st, expr, data_width).0;
            if source.token_at(next).spec_is_operator(","@) && 0 <= next < source.tokens@.len() {
                seq![placed] + data_items(def, after, source, next + 1, data_width)
            } else {
                seq![placed]
            }
        },
        Err(_) => Seq::empty(),
    }
}

/// The items of a directive: those of a data directive, or those of a nested file.
pub open spec fn directive_items(
    def: Definition,
    files: IncludedFiles,
    st: State,
    source: Source,
    pos: int,
    depth: nat,
) -> Seq<Placed>
    decreases depth, source.tokens@.len() - pos, 0int,
{
    match directive_name_read(source, pos) {
        (next, Ok((directive, _))) => match data_directive_width(directive) {
            Some(width) => data_items(def, st, source, next, width),
            None => if directive == "include"@ {
                match string_read(source, next) {
                    Ok((name, _)) => match files.found(source.filename@, name, 0) {
                        Some(nested) => if depth == 0 {
                            Seq::empty()
                        } else {
                            lines_items(
                                def,
                                files,
                                st,
                                nested,
                                file_start(nested),
                                (depth - 1) as nat,
                            )
                        },
                        None => Seq::empty(),
                    },
                    Err(_) => Seq::empty(),
                }
            } else {
                Seq::empty()
            },
        },
        (_, Err(_)) => Seq::empty(),
    }
}

/// The items of a line. Constants and labels put out nothing.
pub open spec fn line_items(
    def: Definition,
    files: IncludedFiles,
    st: State,
    source: Source,
    pos: int,
    depth: nat,
) -> Seq<Placed>
    decreases depth, source.tokens@.len() - pos, 1int,
{
    let first = source.token_at(pos);
    let second = source.token_at(pos + 1);
    if first.spec_is_operator("."@) {
        directive_items(def, files, st, source, pos, depth)
    } else if first.spec_identifier() is Some && (second.spec_is_operator("="@)
        || second.spec_is_operator(":"@)) {
        Seq::empty()
    } else if first.spec_is_operator("'"@) && second.spec_identifier() is Some && source.token_at(
        pos + 2,
    ).spec_is_operator(":"@) {
        Seq::empty()
    } else {
        match rule_selected(def, st, source, pos, 0, None) {
            Ok(Some((instr, _))) => seq![placed_instruction(st, instr)],
            _ => Seq::empty(),
        }
    }
}

/// The items of the lines of a file from a position on, in their order.
pub open spec fn lines_items(
    def: Definition,
    files: IncludedFiles,
    st: State,
    source: Source,
    pos: int,
    depth: nat,
) -> Seq<Placed>
    decreases depth, source.tokens@.len() - pos, 2int,
{
    if pos < source.tokens@.len() {
        let line = line_parsed(def, files, st, source, pos, depth);
        if line.result is Ok && pos < line.pos <= source.tokens@.len() {
            line_items(def, files, st, source, pos, depth) + lines_items(
                def,
                files,
                line.st,
                source,
                line.pos,
                depth,
            )
        } else {
            Seq::empty()
        }
    } else {
        Seq::empty()
    }
}

/// All items of a program, in the order in which they appear.
pub open spec fn program_items(def: Definition, source: Source, files: IncludedFiles) -> Seq<Placed> {
    lines_items(
        def,
        files,
        initial_state(),
        source,
        file_start(source),
        files.max_depth as nat,
    )
}

/// The labels that a program ends with.
pub open spec fn program_labels(def: Definition, source: Source, files: IncludedFiles) -> Labels {
    first_pass(def, source, files).0.labels
}

// ---- Runs of items ----

proof fn lemma_pieces_joined(def: Definition, labels: Labels, first: Seq<Item>, second: Seq<Item>)
    ensures
        all_pieces(def, labels, first + second) == all_pieces(def, labels, first) + all_pieces(
            def,
            labels,
            second,
        ),
    decreases second.len(),
{
    if second.len() == 0 {
        assert(first + second =~= first);
        assert(all_pieces(def, labels, first) + all_pieces(def, labels, second) =~= all_pieces(
            def,
            labels,
            first,
        ));
    } else {
        assert((first + second).drop_last() =~= first + second.drop_last());
        lemma_pieces_joined(def, labels, first, second.drop_last());
        assert(all_pieces(def, labels, first + second) =~= all_pieces(def, labels, first)
            + all_pieces(def, labels, second));
    }
}

proof fn lemma_pieces_of_one(def: Definition, labels: Labels, item: Item)
    ensures
        all_pieces(def, labels, seq![item]) == item_pieces(def, labels, item),
{
    assert(seq![item].drop_last() =~= Seq::<Item>::empty());
    reveal_with_fuel(all_pieces, 2);
    assert(all_pieces(def, labels, seq![item]) =~= item_pieces(def, labels, item));
}

proof fn lemma_runs_joined(first: Seq<Placed>, second: Seq<Placed>)
    ensures
        known_items(first + second) == known_items(first) + known_items(second),
        waiting_instructions(first + second) == waiting_instructions(first) + waiting_instructions(
            second,
        ),
        waiting_data(first + second) == waiting_data(first) + waiting_data(second),
    decreases second.len(),
{
    if second.len() == 0 {
        assert(first + second =~= first);
    } else {
        assert((first + second).drop_last() =~= first + second.drop_last());
        lemma_runs_joined(first, second.drop_last());
    }
    assert(known_items(first + second) =~= known_items(first) + known_items(second));
    assert(waiting_instructions(first + second) =~= waiting_instructions(first)
        + waiting_instructions(second));
    assert(waiting_data(first + second) =~= waiting_data(first) + waiting_data(second));
}

proof fn lemma_run_of_one(placed: Placed)
    ensures
        known_items(seq![placed]) == (if placed.known {
            seq![placed.item]
        } else {
            Seq::empty()
        }),
        waiting_instructions(seq![placed]) == (if !placed.known && placed.item is Instruction {
            seq![placed.item]
        } else {
            Seq::empty()
        }),
        waiting_data(seq![placed]) == (if !placed.known && placed.item is Data {
            seq![placed.item]
        } else {
            Seq::empty()
        }),
{
    assert(seq![placed].drop_last() =~= Seq::<Placed>::empty());
    reveal_with_fuel(known_items, 2);
    reveal_with_fuel(waiting_instructions, 2);
    reveal_with_fuel(waiting_data, 2);
}

// ---- First pass ----

spec fn instruction_items(instrs: Seq<InstructionView>) -> Seq<Item> {
    Seq::new(instrs.len(), |k: int| Item::Instruction(instrs[k]))
}

spec fn expression_items(exprs: Seq<UnresolvedExpression>) -> Seq<Item> {
    Seq::new(exprs.len(), |k: int| Item::Data(exprs[k]))
}

/// The known items are written, in their order, and the others are added to what waits.
spec fn put_out(
    def: Definition,
    labels: Labels,
    before: State,
    after: State,
    placed: Seq<Placed>,
) -> bool {
    &&& after.output_bits == laid(
        before.output_bits,
        all_pieces(def, labels, known_items(placed)),
    )
    &&& instruction_items(after.unresolved_instructions) == instruction_items(
        before.unresolved_instructions,
    ) + waiting_instructions(placed)
    &&& expression_items(after.unresolved_expressions) == expression_items(
        before.unresolved_expressions,
    ) + waiting_data(placed)
}

proof fn lemma_put_out_joined(
    def: Definition,
    labels: Labels,
    a: State,
    b: State,
    c: State,
    first: Seq<Placed>,
    second: Seq<Placed>,
)
    requires
        put_out(def, labels, a, b, first),
        put_out(def, labels, b, c, second),
    ensures
        put_out(def, labels, a, c, first + second),
{
    lemma_runs_joined(first, second);
    lemma_pieces_joined(def, labels, known_items(first), known_items(second));
    laid_joins(
        a.output_bits,
        all_pieces(def, labels, known_items(first)),
        all_pieces(def, labels, known_items(second)),
    );
    assert(instruction_items(c.unresolved_instructions) =~= instruction_items(
        a.unresolved_instructions,
    ) + waiting_instructions(first + second));
    assert(expression_items(c.unresolved_expressions) =~= expression_items(
        a.unresolved_expressions,
    ) + waiting_data(first + second));
}

proof fn lemma_nothing_put_out(def: Definition, labels: Labels, before: State, after: State)
    requires
        after.output_bits == before.output_bits,
        after.unresolved_expressions == before.unresolved_expressions,
        after.unresolved_instructions == before.unresolved_instructions,
    ensures
        put_out(def, labels, before, after, Seq::empty()),
{
    assert(instruction_items(after.unresolved_instructions) =~= instruction_items(
        before.unresolved_instructions,
    ) + waiting_instructions(Seq::empty()));
    assert(expression_items(after.unresolved_expressions) =~= expression_items(
        before.unresolved_expressions,
    ) + waiting_data(Seq::empty()));
}

proof fn lemma_data_put_out(
    def: Definition,
    labels: Labels,
    st: State,
    expr: Expression,
    data_width: usize,
)
    requires
        def.wf(),
        labels_kept(st.labels, labels),
    ensures
        expression_output(def, st, expr, data_width) matches (after, Ok(_)) ==> put_out(
            def,
            labels,
            st,
            after,
            seq![placed_data(st, expr, data_width)],
        ),
{
    let placed = placed_data(st, expr, data_width);
    let (after, result) = expression_output(def, st, expr, data_width);
    lemma_run_of_one(placed);
    if result is Ok {
        if placed.known {
            known_value_stays(st.labels, labels, expr, current_context(st), st.cur_address);
            let integer = expr_value(
                st.labels,
                expr,
                current_context(st),
                st.cur_address,
            )->Ok_0->Integer_0;
            low_slice_is_low_bits(integer, data_width);
            let pieces = item_pieces(def, labels, placed.item);
            lemma_pieces_of_one(def, labels, placed.item);
            assert(pieces.drop_first() =~= Seq::<Piece>::empty());
            assert(laid(st.output_bits, pieces) == after.output_bits) by {
                reveal_with_fuel(laid, 2);
            }
        }
        assert(instruction_items(after.unresolved_instructions) =~= instruction_items(
            st.unresolved_instructions,
        ) + waiting_instructions(seq![placed]));
        assert(expression_items(after.unresolved_expressions) =~= expression_items(
            st.unresolved_expressions,
        ) + waiting_data(seq![placed]));
    }
}

proof fn lemma_instruction_put_out(
    def: Definition,
    labels: Labels,
    st: State,
    instr: InstructionView,
)
    requires
        def.wf(),
        instruction_wf(def, instr),
        labels_kept(st.labels, labels),
    ensures
        instruction_output(def, st, instr) matches (after, Ok(_)) ==> put_out(
            def,
            labels,
            st,
            after,
            seq![placed_instruction(st, instr)],
        ),
{
    let placed = placed_instruction(st, instr);
    let (after, result) = instruction_output(def, st, instr);
    lemma_run_of_one(placed);
    if result is Ok {
        let bits = def.rules@[instr.rule_index as int].production_bit_num as int;
        let moved = advanced(def, st, bits).0;
        if placed.known {
            instruction_now_or_later(def, moved, State { labels, ..moved }, instr);
            pieces_change_output_only(def, moved, instr, 0, 0);
            lemma_pieces_of_one(def, labels, placed.item);
        }
        assert(instruction_items(after.unresolved_instructions) =~= instruction_items(
            st.unresolved_instructions,
        ) + waiting_instructions(seq![placed]));
        assert(expression_items(after.unresolved_expressions) =~= expression_items(
            st.unresolved_expressions,
        ) + waiting_data(seq![placed]));
    }
}

proof fn lemma_data_directive_put_out(
    def: Definition,
    labels: Labels,
    st: State,
    source: Source,
    pos: int,
    data_width: usize,
)
    requires
        def.wf(),
        source.wf(),
        0 <= pos <= source.tokens@.len(),
        labels_kept(st.labels, labels),
    ensures
        ({
            let line = data_parsed(def, st, source, pos, data_width);
            line.result is Ok ==> put_out(
                def,
                labels,
                st,
                line.st,
                data_items(def, st, source, pos, data_width),
            )
        }),
    decreases source.tokens@.len() - pos,
{
    match expression_read(source, pos) {
        Ok((expr, next)) => {
            assert(source.expressions@[pos] is Parsed);
            let after = expression_output(def, st, expr, data_width).0;
            lemma_expression_output_keeps(def, st, expr, data_width);
            lemma_data_put_out(def, labels, st, expr, data_width);
            if source.token_at(next).spec_is_operator(","@) && next < source.tokens@.len() {
                lemma_data_directive_put_out(def, labels, after, source, next + 1, data_width);
                let line = data_parsed(def, st, source, pos, data_width);
                if line.result is Ok {
                    lemma_put_out_joined(
                        def,
                        labels,
                        st,
                        after,
                        line.st,
                        seq![placed_data(st, expr, data_width)],
                        data_items(def, after, source, next + 1, data_width),
                    );
                }
            }
        },
        Err(_) => {},
    }
}

proof fn lemma_directive_put_out(
    def: Definition,
    files: IncludedFiles,
    labels: Labels,
    st: State,
    source: Source,
    pos: int,
    depth: nat,
)
    requires
        def.wf(),
        source.wf(),
        files.wf(),
        0 <= pos < source.tokens@.len(),
        st.labels.has_context(),
        labels_kept(st.labels, labels),
        labels_kept(directive_parsed(def, files, st, source, pos, depth).st.labels, labels),
    ensures
        ({
            let line = directive_parsed(def, files, st, source, pos, depth);
            line.result is Ok ==> put_out(
                def,
                labels,
                st,
                line.st,
                directive_items(def, files, st, source, pos, depth),
            )
        }),
    decreases depth, source.tokens@.len() - pos, 0int,
{
    let line = directive_parsed(def, files, st, source, pos, depth);
    if line.result is Ok {
        let (next, read) = directive_name_read(source, pos);
        let (directive, _) = read->Ok_0;
        match data_directive_width(directive) {
            Some(width) => {
                lemma_data_directive_put_out(def, labels, st, source, next, width);
            },
            None => {
                if directive == "include"@ && directive != "address"@ && directive != "output"@
                    && directive != "res"@ {
                    let (name, _) = string_read(source, next)->Ok_0;
                    let nested = files.found(source.filename@, name, 0)->Some_0;
                    lemma_found(files, source.filename@, name, 0);
                    lemma_after_linebreaks(nested, 0);
                    lemma_lines_put_out(
                        def,
                        files,
                        labels,
                        st,
                        nested,
                        file_start(nested),
                        (depth - 1) as nat,
                    );
                } else {
                    lemma_asking_directive();
                    lemma_nothing_put_out(def, labels, st, line.st);
                }
            },
        }
    }
}

proof fn lemma_line_put_out(
    def: Definition,
    files: IncludedFiles,
    labels: Labels,
    st: State,
    source: Source,
    pos: int,
    depth: nat,
)
    requires
        def.wf(),
        source.wf(),
        files.wf(),
        0 <= pos < source.tokens@.len(),
        st.labels.has_context(),
        labels_kept(st.labels, labels),
        labels_kept(line_parsed(def, files, st, source, pos, depth).st.labels, labels),
    ensures
        ({
            let line = line_parsed(def, files, st, source, pos, depth);
            line.result is Ok ==> put_out(
                def,
                labels,
                st,
                line.st,
                line_items(def, files, st, source, pos, depth),
            )
        }),
    decreases depth, source.tokens@.len() - pos, 1int,
{
    let first = source.token_at(pos);
    let second = source.token_at(pos + 1);
    let line = line_parsed(def, files, st, source, pos, depth);
    if line.result is Ok {
        if first.spec_is_operator("."@) {
            lemma_directive_put_out(def, files, labels, st, source, pos, depth);
        } else if first.spec_identifier() is Some && (second.spec_is_operator("="@)
            || second.spec_is_operator(":"@)) {
            lemma_nothing_put_out(def, labels, st, line.st);
        } else if first.spec_is_operator("'"@) && second.spec_identifier() is Some
            && source.token_at(pos + 2).spec_is_operator(":"@) {
            lemma_nothing_put_out(def, labels, st, line.st);
        } else {
            selected_instruction_is_complete(def, st, source, pos);
            let (instr, _) = rule_selected(def, st, source, pos, 0, None)->Ok_0->Some_0;
            lemma_instruction_put_out(def, labels, st, instr);
        }
    }
}

proof fn lemma_lines_put_out(
    def: Definition,
    files: IncludedFiles,
    labels: Labels,
    st: State,
    source: Source,
    pos: int,
    depth: nat,
)
    requires
        def.wf(),
        source.wf(),
        files.wf(),
        0 <= pos <= source.tokens@.len(),
        st.labels.has_context(),
        labels_kept(lines_parsed(def, files, st, source, pos, depth).0.labels, labels),
    ensures
        lines_parsed(def, files, st, source, pos, depth) matches (after, Ok(_)) ==> put_out(
            def,
            labels,
            st,
            after,
            lines_items(def, files, st, source, pos, depth),
        ),
    decreases depth, source.tokens@.len() - pos, 2int,
{
    if pos < source.tokens@.len() {
        line_keeps_state(def, files, st, source, pos, depth);
        let line = line_parsed(def, files, st, source, pos, depth);
        if line.result is Ok {
            lines_keep_state(def, files, line.st, source, line.pos, depth);
            let after = lines_parsed(def, files, line.st, source, line.pos, depth).0;
            lemma_labels_kept_transitive(line.st.labels, after.labels, labels);
            lemma_labels_kept_transitive(st.labels, line.st.labels, labels);
            lemma_line_put_out(def, files, labels, st, source, pos, depth);
            lemma_lines_put_out(def, files, labels, line.st, source, line.pos, depth);
            if lines_parsed(def, files, line.st, source, line.pos, depth).1 is Ok {
                lemma_put_out_joined(
                    def,
                    labels,
                    st,
                    line.st,
                    after,
                    line_items(def, files, st, source, pos, depth),
                    lines_items(def, files, line.st, source, line.pos, depth),
                );
            }
        }
    } else {
        lemma_nothing_put_out(def, labels, st, st);
    }
}

// ---- Second pass ----

proof fn lemma_instructions_put_out(
    def: Definition,
    st: State,
    instrs: Seq<InstructionView>,
    k: int,
)
    requires
        0 <= k <= instrs.len(),
    ensures
        instructions_completed(def, st, instrs, k) matches (after, Ok(_)) ==> after == (State {
            output_bits: laid(
                st.output_bits,
                all_pieces(
                    def,
                    st.labels,
                    instruction_items(instrs).subrange(k, instrs.len() as int),
                ),
            ),
            ..st
        }),
    decreases instrs.len() - k,
{
    let items = instruction_items(instrs).subrange(k, instrs.len() as int);
    if k < instrs.len() {
        let next = instruction_resolved(def, st, instrs[k]).0;
        instruction_lays_its_pieces(def, st, instrs[k], 0, 0);
        pieces_change_output_only(def, st, instrs[k], 0, 0);
        lemma_instructions_put_out(def, next, instrs, k + 1);
        let item = Item::Instruction(instrs[k]);
        let rest = instruction_items(instrs).subrange(k + 1, instrs.len() as int);
        assert(items =~= seq![item] + rest);
        lemma_pieces_joined(def, st.labels, seq![item], rest);
        lemma_pieces_of_one(def, st.labels, item);
        laid_joins(
            st.output_bits,
            item_pieces(def, st.labels, item),
            all_pieces(def, st.labels, rest),
        );
    } else {
        assert(items =~= Seq::<Item>::empty());
    }
}

proof fn lemma_expression_put_out(def: Definition, st: State, data: UnresolvedExpression)
    ensures
        expression_completed(def, st, data) matches (after, Ok(_)) ==> after == (State {
            output_bits: laid(st.output_bits, item_pieces(def, st.labels, Item::Data(data))),
            ..st
        }),
{
    if expression_completed(def, st, data).1 is Ok {
        let integer = expr_value(
            st.labels,
            data.expr,
            data.label_ctx,
            data.address,
        )->Ok_0->Integer_0;
        low_slice_is_low_bits(integer, data.data_width);
        let pieces = item_pieces(def, st.labels, Item::Data(data));
        assert(pieces.drop_first() =~= Seq::<Piece>::empty());
        reveal_with_fuel(laid, 2);
    }
}

proof fn lemma_expressions_put_out(
    def: Definition,
    st: State,
    exprs: Seq<UnresolvedExpression>,
    k: int,
)
    requires
        0 <= k <= exprs.len(),
    ensures
        expressions_completed(def, st, exprs, k) matches (after, Ok(_)) ==> after.output_bits
            == laid(
            st.output_bits,
            all_pieces(
                def,
                st.labels,
                expression_items(exprs).subrange(k, exprs.len() as int),
            ),
        ),
    decreases exprs.len() - k,
{
    let items = expression_items(exprs).subrange(k, exprs.len() as int);
    if k < exprs.len() {
        let next = expression_completed(def, st, exprs[k]).0;
        lemma_expression_put_out(def, st, exprs[k]);
        lemma_expressions_put_out(def, next, exprs, k + 1);
        let item = Item::Data(exprs[k]);
        let rest = expression_items(exprs).subrange(k + 1, exprs.len() as int);
        assert(items =~= seq![item] + rest);
        lemma_pieces_joined(def, st.labels, seq![item], rest);
        lemma_pieces_of_one(def, st.labels, item);
        laid_joins(
            st.output_bits,
            item_pieces(def, st.labels, item),
            all_pieces(def, st.labels, rest),
        );
    } else {
        assert(items =~= Seq::<Item>::empty());
    }
}

// ---- Whole programs ----

/// What the output of a program is: the pieces of all its items, written one after the other. The
/// items whose values are known where they stand are written first, then the instructions that had
/// to wait, and at last the data that had to wait. The bits of an item are those that it has with
/// the labels that the program ends with, whether or not they were known where the item stands.
pub proof fn output_is_written_in_order(def: Definition, source: Source, files: IncludedFiles)
    requires
        def.wf(),
        source.wf(),
        files.wf(),
    ensures
        assembled(def, source, files) matches Ok(bits) ==> bits == laid(
            Seq::empty(),
            all_pieces(
                def,
                program_labels(def, source, files),
                writing_order(program_items(def, source, files)),
            ),
        ),
{
    if assembled(def, source, files) is Ok {
        let start = initial_state();
        let st = first_pass(def, source, files).0;
        let labels = st.labels;
        let placed = program_items(def, source, files);
        lemma_after_linebreaks(source, 0);
        lemma_state_kept_reflexive(st);
        lemma_lines_put_out(
            def,
            files,
            labels,
            start,
            source,
            file_start(source),
            files.max_depth as nat,
        );
        let instrs = st.unresolved_instructions;
        let exprs = st.unresolved_expressions;
        let emptied = State { unresolved_instructions: Seq::empty(), ..st };
        lemma_instructions_put_out(def, emptied, instrs, 0);
        let done = instructions_completed(def, emptied, instrs, 0).0;
        let drained = State { unresolved_expressions: Seq::empty(), ..done };
        lemma_expressions_put_out(def, drained, exprs, 0);
        assert(instruction_items(instrs).subrange(0, instrs.len() as int)
            =~= waiting_instructions(placed));
        assert(expression_items(exprs).subrange(0, exprs.len() as int) =~= waiting_data(placed));
        let known = all_pieces(def, labels, known_items(placed));
        let waiting = all_pieces(def, labels, waiting_instructions(placed));
        let data = all_pieces(def, labels, waiting_data(placed));
        lemma_pieces_joined(def, labels, known_items(placed), waiting_instructions(placed));
        lemma_pieces_joined(
            def,
            labels,
            known_items(placed) + waiting_instructions(placed),
            waiting_data(placed),
        );
        laid_joins(Seq::empty(), known, waiting);
        laid_joins(Seq::empty(), known + waiting, data);
    }
}

proof fn lemma_no_piece(def: Definition, labels: Labels, items: Seq<Item>, i: int)
    requires
        forall|j: int|
            0 <= j < items.len() ==> item_bit(def, labels, #[trigger] items[j], i) is None,
    ensures
        piece_bit(all_pieces(def, labels, items), i) is None,
    decreases items.len(),
{
    if items.len() > 0 {
        let shorter = items.drop_last();
        assert forall|j: int| 0 <= j < shorter.len() implies item_bit(
            def,
            labels,
            #[trigger] shorter[j],
            i,
        ) is None by {
            assert(shorter[j] == items[j]);
        }
        lemma_no_piece(def, labels, shorter, i);
        assert(item_bit(def, labels, items[items.len() - 1], i) is None);
        later_pieces_decide(
            all_pieces(def, labels, shorter),
            item_pieces(def, labels, items.last()),
            i,
        );
    }
}

proof fn lemma_last_piece(def: Definition, labels: Labels, items: Seq<Item>, k: int, i: int)
    requires
        0 <= k < items.len(),
        item_bit(def, labels, items[k], i) is Some,
        forall|j: int|
            k < j < items.len() ==> item_bit(def, labels, #[trigger] items[j], i) is None,
    ensures
        piece_bit(all_pieces(def, labels, items), i) == item_bit(def, labels, items[k], i),
    decreases items.len(),
{
    let shorter = items.drop_last();
    later_pieces_decide(
        all_pieces(def, labels, shorter),
        item_pieces(def, labels, items.last()),
        i,
    );
    if k < items.len() - 1 {
        assert forall|j: int| k < j < shorter.len() implies item_bit(
            def,
            labels,
            #[trigger] shorter[j],
            i,
        ) is None by {
            assert(shorter[j] == items[j]);
        }
        assert(shorter[k] == items[k]);
        lemma_last_piece(def, labels, shorter, k, i);
        assert(item_bit(def, labels, items[items.len() - 1], i) is None);
    }
}

/// Which bit stands at a position: that of the last item, in the order of writing, that puts a bit
/// there.
pub proof fn last_item_reads_back(
    def: Definition,
    source: Source,
    files: IncludedFiles,
    k: int,
    i: int,
)
    requires
        def.wf(),
        source.wf(),
        files.wf(),
        0 <= i,
        ({
            let order = writing_order(program_items(def, source, files));
            let labels = program_labels(def, source, files);
            &&& 0 <= k < order.len()
            &&& item_bit(def, labels, order[k], i) is Some
            &&& forall|j: int|
                k < j < order.len() ==> item_bit(def, labels, #[trigger] order[j], i) is None
        }),
    ensures
        assembled(def, source, files) matches Ok(bits) ==> {
            let order = writing_order(program_items(def, source, files));
            let labels = program_labels(def, source, files);
            i < bits.len() && item_bit(def, labels, order[k], i) == Some(bits[i])
        },
{
    let order = writing_order(program_items(def, source, files));
    let labels = program_labels(def, source, files);
    output_is_written_in_order(def, source, files);
    lemma_last_piece(def, labels, order, k, i);
    laid_reads_back(Seq::empty(), all_pieces(def, labels, order), i);
}

/// A position at which no item puts a bit is zero.
pub proof fn untouched_position_is_zero(
    def: Definition,
    source: Source,
    files: IncludedFiles,
    i: int,
)
    requires
        def.wf(),
        source.wf(),
        files.wf(),
        0 <= i,
        ({
            let order = writing_order(program_items(def, source, files));
            let labels = program_labels(def, source, files);
            forall|j: int|
                0 <= j < order.len() ==> item_bit(def, labels, #[trigger] order[j], i) is None
        }),
    ensures
        assembled(def, source, files) matches Ok(bits) ==> !bit_at(bits, i),
{
    let order = writing_order(program_items(def, source, files));
    let labels = program_labels(def, source, files);
    output_is_written_in_order(def, source, files);
    lemma_no_piece(def, labels, order, i);
    laid_reads_back(Seq::empty(), all_pieces(def, labels, order), i);
}

} // verus!
