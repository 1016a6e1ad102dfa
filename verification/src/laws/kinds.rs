//! What each kind of line does: constants, labels, directives and instructions.

use vstd::prelude::*;
use crate::definition::Definition;
use crate::error::FailureView;
use crate::expr::{Expression, ExpressionName, ExpressionValue};
use crate::integer::Integer;
use crate::label::{LabelContext, Labels};
use crate::laws::matching::{latest_context, matched_pattern_stands_in_the_source};
use crate::laws::numbers::number_is_taken_as_it_is;
use crate::laws::reading::{
    expression_stands,
    identifiers_are_read_where_they_stand,
    line_ends,
    lines_end_where_line_breaks_stand,
    operator_stands,
    operators_are_read_where_they_stand,
    place_at,
    strings_are_read_where_they_stand,
    text_stands,
    word_stands,
};
use crate::laws::rules::rule_choice;
use crate::laws::values::{address_becomes_a_value, named, names_in_the_program, place, says};
use crate::model::{
    constant_parsed,
    data_directive_width,
    data_parsed,
    directive_parsed,
    expr_value,
    expression_output,
    global_label_parsed,
    instruction_output,
    instruction_parsed,
    integer_extracted,
    line_finished,
    line_parsed,
    lines_parsed,
    local_label_parsed,
    rule_selected,
    Reached,
    State,
};
use crate::parser::{file_start, line_end_read};
use crate::source::{IncludedFiles, ParsedExpression, Source};
use crate::text::decimal_number;

verus! {

/// A line stops with a state, at a position and with a failure.
pub open spec fn stops(line: Reached, st: State, pos: int, failure: FailureView) -> bool {
    line.st == st && line.pos == pos && line.result == Err::<(), FailureView>(failure)
}

/// A line that did all it does is left with a state: the line has to end at a position, and the
/// next one that holds anything is where it is left. Where the line does not end there, the state
/// stays, and the failure is reported at what stands there.
pub open spec fn ends_with(line: Reached, st: State, source: Source, pos: int) -> bool {
    if pos >= source.tokens@.len() || source.tokens@[pos].kind is LineBreak {
        line.st == st && line.result == Ok::<(), FailureView>(()) && line_ends(
            source,
            pos,
            line.pos,
        )
    } else {
        stops(line, st, pos, says("expected line break"@, source.tokens@[pos].span))
    }
}

/// What an expression is worth where the program is now.
pub open spec fn worth_here(st: State, expr: Expression) -> Result<ExpressionValue, FailureView> {
    expr_value(st.labels, expr, latest_context(st), st.cur_address)
}

/// There is a program at a position.
pub open spec fn can_read(st: State, source: Source, pos: int) -> bool {
    source.wf() && st.labels.wf() && 0 <= pos < source.tokens@.len()
}

proof fn lemma_line_finished(st: State, source: Source, pos: int)
    requires
        0 <= pos <= source.tokens@.len(),
    ensures
        ends_with(line_finished(st, source, pos), st, source, pos),
{
    let line = line_finished(st, source, pos);
    lines_end_where_line_breaks_stand(source, pos, line.pos);
    if pos >= source.tokens@.len() || source.tokens@[pos].kind is LineBreak {
        assert(line_end_read(source, pos) is Ok);
        assert(line.result->Ok_0 == ());
    }
}

proof fn lemma_expression_reaches(source: Source, pos: int)
    requires
        source.wf(),
        0 <= pos <= source.tokens@.len(),
    ensures
        source.expressions@[pos] matches ParsedExpression::Parsed { length, .. } ==> 0 <= pos
            + length <= source.tokens@.len(),
{
    let found = source.expressions@[pos];
}

// ---- Constants and labels ----

/// The definition of a constant stands at a position: a name and an equals sign.
pub open spec fn constant_stands(source: Source, pos: int, name: Seq<char>) -> bool {
    word_stands(source, pos, name) && operator_stands(source, pos + 1, "="@)
}

/// A global label stands at a position: a name and a colon.
pub open spec fn label_stands(source: Source, pos: int, name: Seq<char>) -> bool {
    word_stands(source, pos, name) && operator_stands(source, pos + 1, ":"@)
}

/// A local label stands at a position: an apostrophe, a name and a colon.
pub open spec fn local_label_stands(source: Source, pos: int, name: Seq<char>) -> bool {
    operator_stands(source, pos, "'"@) && word_stands(source, pos + 1, name) && operator_stands(
        source,
        pos + 2,
        ":"@,
    )
}

/// The operators that start a line or follow a name are different ones.
proof fn lemma_different_operators()
    ensures
        "="@ != ":"@,
        "."@ != "'"@,
        "="@.len() == 1,
{
    reveal_strlit("=");
    reveal_strlit(":");
    reveal_strlit(".");
    reveal_strlit("'");
    assert("="@[0] != ":"@[0]);
    assert("."@[0] != "'"@[0]);
}

/// A state with one global more, behind which no local labels are known yet.
pub open spec fn with_new_global(st: State, name: Seq<char>, value: ExpressionValue) -> State {
    State {
        labels: Labels {
            globals: st.labels.globals.insert(name, value),
            locals: st.labels.locals.push(Map::empty()),
        },
        ..st
    }
}

/// A constant gets the value that its expression has where it stands. Where the name is taken, or
/// there is no expression or no value, nothing is stored and the failure is reported.
pub proof fn constant_gets_the_value_of_its_expression(
    def: Definition,
    files: IncludedFiles,
    st: State,
    source: Source,
    pos: int,
    depth: nat,
    name: Seq<char>,
)
    requires
        can_read(st, source, pos),
        constant_stands(source, pos, name),
    ensures
        ({
            let line = line_parsed(def, files, st, source, pos, depth);
            if st.labels.globals.dom().contains(name) {
                stops(
                    line,
                    st,
                    pos + 2,
                    says("duplicate global label `"@ + name + "`"@, source.tokens@[pos].span),
                )
            } else {
                match source.expressions@[pos + 2] {
                    ParsedExpression::Parsed { expr, length } => match worth_here(st, expr) {
                        Ok(value) => ends_with(
                            line,
                            with_new_global(st, name, value),
                            source,
                            pos + 2 + length,
                        ),
                        Err(failure) => stops(line, st, pos + 2 + length, failure),
                    },
                    ParsedExpression::Failed(error) => stops(
                        line,
                        st,
                        pos + 2,
                        says(error.message@, error.span),
                    ),
                }
            }
        }),
{
    lemma_different_operators();
    identifiers_are_read_where_they_stand(source, pos, name);
    operators_are_read_where_they_stand(source, pos, "."@);
    operators_are_read_where_they_stand(source, pos + 1, "="@);
    lemma_expression_reaches(source, pos + 2);
    match source.expressions@[pos + 2] {
        ParsedExpression::Parsed { expr, length } => {
            match worth_here(st, expr) {
                Ok(value) => {
                    lemma_line_finished(
                        with_new_global(st, name, value),
                        source,
                        pos + 2 + length,
                    );
                },
                Err(_) => {},
            }
        },
        ParsedExpression::Failed(_) => {},
    }
}

/// After the definition of a constant was read, the name is worth exactly what the expression was
/// worth before, in every context and at every address, and every other global is worth what it was
/// worth before.
pub proof fn constant_reads_back(
    def: Definition,
    files: IncludedFiles,
    st: State,
    source: Source,
    pos: int,
    depth: nat,
    name: String,
    other: String,
    ctx: LabelContext,
    pc: usize,
    span: crate::error::Span,
)
    requires
        can_read(st, source, pos),
        constant_stands(source, pos, name@),
        name@ != "pc"@,
        other@ != "pc"@,
        other@ != name@,
    ensures
        ({
            let line = line_parsed(def, files, st, source, pos, depth);
            let global = named(ExpressionName::GlobalVariable(name), span);
            let another = named(ExpressionName::GlobalVariable(other), span);
            line.result is Ok ==> {
                &&& exists|expr: Expression, next: int|
                    {
                        &&& #[trigger] expression_stands(source, pos + 2, expr, next)
                        &&& expr_value(line.st.labels, global, ctx, pc) == worth_here(st, expr)
                    }
                &&& line.st.labels.global(name@) is Some
                &&& line.st.labels.global(other@) == st.labels.global(other@)
                &&& expr_value(line.st.labels, another, ctx, pc) == expr_value(
                    st.labels,
                    another,
                    ctx,
                    pc,
                )
                &&& line.st.cur_address == st.cur_address
                &&& line.st.cur_output == st.cur_output
                &&& line.st.output_bits == st.output_bits
            }
        }),
{
    let line = line_parsed(def, files, st, source, pos, depth);
    constant_gets_the_value_of_its_expression(def, files, st, source, pos, depth, name@);
    if line.result is Ok {
        names_in_the_program(line.st.labels, ctx, pc, name, span);
        names_in_the_program(line.st.labels, ctx, pc, other, span);
        names_in_the_program(st.labels, ctx, pc, other, span);
        match source.expressions@[pos + 2] {
            ParsedExpression::Parsed { expr, length } => {
                assert(expression_stands(source, pos + 2, expr, pos + 2 + length));
            },
            ParsedExpression::Failed(_) => {},
        }
    }
}

/// A global label stands for the address where it is defined. Where the name is taken, it is
/// refused.
pub proof fn global_label_is_its_address(
    def: Definition,
    files: IncludedFiles,
    st: State,
    source: Source,
    pos: int,
    depth: nat,
    name: Seq<char>,
)
    requires
        can_read(st, source, pos),
        label_stands(source, pos, name),
    ensures
        ({
            let line = line_parsed(def, files, st, source, pos, depth);
            if st.labels.globals.dom().contains(name) {
                stops(
                    line,
                    st,
                    pos + 2,
                    says("duplicate global label `"@ + name + "`"@, source.tokens@[pos].span),
                )
            } else {
                ends_with(
                    line,
                    with_new_global(st, name, place(st.cur_address)),
                    source,
                    pos + 2,
                )
            }
        }),
{
    lemma_different_operators();
    address_becomes_a_value(st.cur_address);
    identifiers_are_read_where_they_stand(source, pos, name);
    operators_are_read_where_they_stand(source, pos, "."@);
    operators_are_read_where_they_stand(source, pos + 1, "="@);
    operators_are_read_where_they_stand(source, pos + 1, ":"@);
    lemma_line_finished(with_new_global(st, name, place(st.cur_address)), source, pos + 2);
}

/// A local label stands for the address where it is defined, within the latest context. It changes
/// no other label. Where the name is taken there, it is refused.
pub proof fn local_label_is_its_address(
    def: Definition,
    files: IncludedFiles,
    st: State,
    source: Source,
    pos: int,
    depth: nat,
    name: Seq<char>,
)
    requires
        can_read(st, source, pos),
        local_label_stands(source, pos, name),
    ensures
        ({
            let line = line_parsed(def, files, st, source, pos, depth);
            let latest = st.labels.locals.len() - 1;
            let known = st.labels.locals[latest];
            if known.dom().contains(name) {
                stops(
                    line,
                    st,
                    pos + 3,
                    says("duplicate local label `"@ + name + "`"@, source.tokens@[pos + 1].span),
                )
            } else {
                ends_with(
                    line,
                    State {
                        labels: Labels {
                            globals: st.labels.globals,
                            locals: st.labels.locals.update(
                                latest,
                                known.insert(name, place(st.cur_address)),
                            ),
                        },
                        ..st
                    },
                    source,
                    pos + 3,
                )
            }
        }),
{
    lemma_different_operators();
    address_becomes_a_value(st.cur_address);
    let latest = st.labels.locals.len() - 1;
    operators_are_read_where_they_stand(source, pos, "."@);
    operators_are_read_where_they_stand(source, pos, "'"@);
    identifiers_are_read_where_they_stand(source, pos + 1, name);
    operators_are_read_where_they_stand(source, pos + 2, ":"@);
    lemma_line_finished(
        State {
            labels: Labels {
                globals: st.labels.globals,
                locals: st.labels.locals.update(
                    latest,
                    st.labels.locals[latest].insert(name, place(st.cur_address)),
                ),
            },
            ..st
        },
        source,
        pos + 3,
    );
}

/// After a local label was read, its name is worth the address that was the current one before, in
/// the context that was the latest one before; the output position does not matter.
pub proof fn local_label_reads_back(
    def: Definition,
    files: IncludedFiles,
    st: State,
    source: Source,
    pos: int,
    depth: nat,
    name: String,
    pc: usize,
    span: crate::error::Span,
)
    requires
        can_read(st, source, pos),
        local_label_stands(source, pos, name@),
    ensures
        ({
            let line = line_parsed(def, files, st, source, pos, depth);
            let local = named(ExpressionName::LocalVariable(name), span);
            line.result is Ok ==> {
                &&& expr_value(line.st.labels, local, latest_context(st), pc) == Ok::<
                    ExpressionValue,
                    FailureView,
                >(place(st.cur_address))
                &&& line.st.labels.local(latest_context(st), name@) == Some(place(st.cur_address))
                &&& line.st.labels.globals == st.labels.globals
                &&& latest_context(line.st) == latest_context(st)
            }
        }),
{
    let line = line_parsed(def, files, st, source, pos, depth);
    local_label_is_its_address(def, files, st, source, pos, depth, name@);
    if line.result is Ok {
        names_in_the_program(line.st.labels, latest_context(st), pc, name, span);
    }
}

/// After a global label was read, its name is worth the address that was the current one before.
pub proof fn global_label_reads_back(
    def: Definition,
    files: IncludedFiles,
    st: State,
    source: Source,
    pos: int,
    depth: nat,
    name: String,
    ctx: LabelContext,
    pc: usize,
    span: crate::error::Span,
)
    requires
        can_read(st, source, pos),
        label_stands(source, pos, name@),
        name@ != "pc"@,
    ensures
        ({
            let line = line_parsed(def, files, st, source, pos, depth);
            let global = named(ExpressionName::GlobalVariable(name), span);
            line.result is Ok ==> expr_value(line.st.labels, global, ctx, pc) == Ok::<
                ExpressionValue,
                FailureView,
            >(place(st.cur_address))
        }),
{
    let line = line_parsed(def, files, st, source, pos, depth);
    global_label_is_its_address(def, files, st, source, pos, depth, name@);
    if line.result is Ok {
        names_in_the_program(line.st.labels, ctx, pc, name, span);
    }
}

/// What is read as a constant or as a label has to be one: a name, and the sign that follows it.
pub proof fn names_and_signs_are_expected(st: State, source: Source, pos: int, name: Seq<char>)
    requires
        source.wf(),
        0 <= pos,
    ensures
        (forall|other: Seq<char>| !#[trigger] word_stands(source, pos, other)) ==> {
            let failure = says("expected identifier"@, place_at(source, pos));
            &&& stops(constant_parsed(st, source, pos), st, pos, failure)
            &&& stops(global_label_parsed(st, source, pos), st, pos, failure)
        },
        word_stands(source, pos, name) ==> {
            &&& !operator_stands(source, pos + 1, "="@) ==> stops(
                constant_parsed(st, source, pos),
                st,
                pos + 1,
                says("expected `"@ + "="@ + "`"@, place_at(source, pos + 1)),
            )
            &&& !operator_stands(source, pos + 1, ":"@) ==> stops(
                global_label_parsed(st, source, pos),
                st,
                pos + 1,
                says("expected `"@ + ":"@ + "`"@, place_at(source, pos + 1)),
            )
        },
{
    identifiers_are_read_where_they_stand(source, pos, name);
    operators_are_read_where_they_stand(source, pos + 1, "="@);
    operators_are_read_where_they_stand(source, pos + 1, ":"@);
}

/// What is read as a local label has to be one: an apostrophe, a name and a colon.
pub proof fn local_signs_are_expected(st: State, source: Source, pos: int, name: Seq<char>)
    requires
        source.wf(),
        0 <= pos,
    ensures
        !operator_stands(source, pos, "'"@) ==> stops(
            local_label_parsed(st, source, pos),
            st,
            pos,
            says("expected `"@ + "'"@ + "`"@, place_at(source, pos)),
        ),
        operator_stands(source, pos, "'"@) && (forall|other: Seq<char>|
            !#[trigger] word_stands(source, pos + 1, other)) ==> stops(
            local_label_parsed(st, source, pos),
            st,
            pos + 1,
            says("expected identifier"@, place_at(source, pos + 1)),
        ),
        operator_stands(source, pos, "'"@) && word_stands(source, pos + 1, name)
            && !operator_stands(source, pos + 2, ":"@) ==> stops(
            local_label_parsed(st, source, pos),
            st,
            pos + 2,
            says("expected `"@ + ":"@ + "`"@, place_at(source, pos + 2)),
        ),
{
    operators_are_read_where_they_stand(source, pos, "'"@);
    identifiers_are_read_where_they_stand(source, pos + 1, name);
    operators_are_read_where_they_stand(source, pos + 2, ":"@);
}

/// What is read as a directive has to start with a dot.
pub proof fn dot_is_expected(
    def: Definition,
    files: IncludedFiles,
    st: State,
    source: Source,
    pos: int,
    depth: nat,
)
    requires
        source.wf(),
        0 <= pos,
        !operator_stands(source, pos, "."@),
    ensures
        stops(
            directive_parsed(def, files, st, source, pos, depth),
            st,
            pos,
            says("expected `"@ + "."@ + "`"@, place_at(source, pos)),
        ),
{
    operators_are_read_where_they_stand(source, pos, "."@);
}

/// What a line is shows at its start: it is read as the kind of line that stands there.
pub proof fn lines_are_told_apart(
    def: Definition,
    files: IncludedFiles,
    st: State,
    source: Source,
    pos: int,
    depth: nat,
    name: Seq<char>,
)
    requires
        can_read(st, source, pos),
    ensures
        ({
            let line = line_parsed(def, files, st, source, pos, depth);
            &&& operator_stands(source, pos, "."@) ==> line == directive_parsed(
                def,
                files,
                st,
                source,
                pos,
                depth,
            )
            &&& constant_stands(source, pos, name) ==> line == constant_parsed(st, source, pos)
            &&& label_stands(source, pos, name) ==> line == global_label_parsed(st, source, pos)
            &&& local_label_stands(source, pos, name) ==> line == local_label_parsed(
                st,
                source,
                pos,
            )
        }),
{
    lemma_different_operators();
    identifiers_are_read_where_they_stand(source, pos, name);
    identifiers_are_read_where_they_stand(source, pos + 1, name);
    operators_are_read_where_they_stand(source, pos, "."@);
    operators_are_read_where_they_stand(source, pos, "'"@);
    operators_are_read_where_they_stand(source, pos + 1, "="@);
    operators_are_read_where_they_stand(source, pos + 1, ":"@);
    operators_are_read_where_they_stand(source, pos + 2, ":"@);
}

// ---- Directives ----

/// A directive stands at a position: a dot and a name.
pub open spec fn directive_is_at(source: Source, pos: int, name: Seq<char>) -> bool {
    operator_stands(source, pos, "."@) && word_stands(source, pos + 1, name)
}

/// A dot has to be followed by the name of a directive.
pub proof fn directive_has_a_name(
    def: Definition,
    files: IncludedFiles,
    st: State,
    source: Source,
    pos: int,
    depth: nat,
)
    requires
        can_read(st, source, pos),
        operator_stands(source, pos, "."@),
        forall|name: Seq<char>| !#[trigger] word_stands(source, pos + 1, name),
    ensures
        stops(
            line_parsed(def, files, st, source, pos, depth),
            st,
            pos + 1,
            says("expected identifier"@, place_at(source, pos + 1)),
        ),
{
    operators_are_read_where_they_stand(source, pos, "."@);
    identifiers_are_read_where_they_stand(source, pos + 1, Seq::empty());
}

/// The name of a data directive is a `d` and its width as a decimal number.
pub proof fn data_directive_names_its_width(name: Seq<char>, width: usize)
    ensures
        data_directive_width(name) == Some(width) <==> (name.len() > 0 && name[0] == 'd'
            && decimal_number(name.skip(1)) == Some(width)),
{
}

proof fn lemma_directive_names()
    ensures
        data_directive_width("address"@) is None,
        data_directive_width("output"@) is None,
        data_directive_width("res"@) is None,
        data_directive_width("include"@) is None,
        data_directive_width("includebin"@) is None,
        "address"@ != "output"@,
        "address"@ != "res"@,
        "address"@ != "include"@,
        "address"@ != "includebin"@,
        "output"@ != "res"@,
        "output"@ != "include"@,
        "output"@ != "includebin"@,
        "res"@ != "include"@,
        "res"@ != "includebin"@,
        "include"@ != "includebin"@,
{
    reveal_strlit("address");
    reveal_strlit("output");
    reveal_strlit("res");
    reveal_strlit("include");
    reveal_strlit("includebin");
    assert("address"@[0] == 'a');
    assert("output"@[0] == 'o');
    assert("res"@[0] == 'r');
    assert("include"@[0] == 'i');
    assert("includebin"@[0] == 'i');
    assert("include"@.len() != "includebin"@.len());
}

/// What a directive with a number does to the state, or that the number is too large for it.
pub open spec fn moved(
    def: Definition,
    st: State,
    name: Seq<char>,
    number: int,
) -> Result<State, FailureView> {
    if name == "address"@ {
        Ok(State { cur_address: number as usize, ..st })
    } else if name == "output"@ {
        Ok(State { cur_output: number as usize, ..st })
    } else if def.align_bits * number <= usize::MAX && st.cur_address + number <= usize::MAX
        && st.cur_output + number <= usize::MAX {
        Ok(
            State {
                cur_address: (st.cur_address + number) as usize,
                cur_output: (st.cur_output + number) as usize,
                ..st
            },
        )
    } else {
        Err(FailureView::Overflow)
    }
}

/// `.address` sets the address to the number behind it and `.output` the output position; `.res`
/// moves both on by the number. Nothing else changes. What is no number is refused.
pub proof fn directive_moves_by_its_number(
    def: Definition,
    files: IncludedFiles,
    st: State,
    source: Source,
    pos: int,
    depth: nat,
    name: Seq<char>,
)
    requires
        can_read(st, source, pos),
        def.align_bits > 0,
        directive_is_at(source, pos, name),
        name == "address"@ || name == "output"@ || name == "res"@,
    ensures
        ({
            let line = line_parsed(def, files, st, source, pos, depth);
            match source.expressions@[pos + 2] {
                ParsedExpression::Parsed { expr, length } => {
                    let next = pos + 2 + length;
                    match worth_here(st, expr) {
                        Ok(ExpressionValue::Integer(integer)) => {
                            let number = if 0 <= integer.value <= usize::MAX {
                                integer.value as int
                            } else {
                                integer_extracted(
                                    ExpressionValue::Integer(integer),
                                    expr.span,
                                )->Ok_0 as int
                            };
                            match moved(def, st, name, number) {
                                Ok(after) => ends_with(line, after, source, next),
                                Err(failure) => stops(line, st, next, failure),
                            }
                        },
                        Ok(ExpressionValue::Boolean(_)) => stops(
                            line,
                            st,
                            next,
                            says("expected integer value"@, expr.span),
                        ),
                        Err(failure) => stops(line, st, next, failure),
                    }
                },
                ParsedExpression::Failed(error) => stops(
                    line,
                    st,
                    pos + 2,
                    says(error.message@, error.span),
                ),
            }
        }),
{
    lemma_directive_names();
    operators_are_read_where_they_stand(source, pos, "."@);
    identifiers_are_read_where_they_stand(source, pos + 1, name);
    lemma_expression_reaches(source, pos + 2);
    match source.expressions@[pos + 2] {
        ParsedExpression::Parsed { expr, length } => {
            let next = pos + 2 + length;
            match worth_here(st, expr) {
                Ok(value) => {
                    number_is_taken_as_it_is(value, expr.span);
                    if value is Integer {
                        let number = integer_extracted(value, expr.span)->Ok_0 as int;
                        vstd::arithmetic::div_mod::lemma_div_multiples_vanish(
                            number,
                            def.align_bits as int,
                        );
                        assert(def.align_bits * number == number * def.align_bits)
                            by (nonlinear_arith);
                        match moved(def, st, name, number) {
                            Ok(after) => {
                                lemma_line_finished(after, source, next);
                            },
                            Err(_) => {},
                        }
                    }
                },
                Err(_) => {},
            }
        },
        ParsedExpression::Failed(_) => {},
    }
}

/// After `.address` was read with an operand that is no negative number, the address is that number
/// and the output position is as before; after `.output` it is the other way round; `.res` moves
/// both on by the number.
pub proof fn positions_are_where_directives_put_them(
    def: Definition,
    files: IncludedFiles,
    st: State,
    source: Source,
    pos: int,
    depth: nat,
    name: Seq<char>,
    expr: Expression,
    next: int,
    integer: Integer,
)
    requires
        can_read(st, source, pos),
        def.align_bits > 0,
        directive_is_at(source, pos, name),
        expression_stands(source, pos + 2, expr, next),
        worth_here(st, expr) == Ok::<ExpressionValue, FailureView>(
            ExpressionValue::Integer(integer),
        ),
        0 <= integer.value <= usize::MAX,
    ensures
        ({
            let line = line_parsed(def, files, st, source, pos, depth);
            line.result is Ok ==> {
                &&& name == "address"@ ==> line.st.cur_address == integer.value
                    && line.st.cur_output == st.cur_output
                &&& name == "output"@ ==> line.st.cur_output == integer.value
                    && line.st.cur_address == st.cur_address
                &&& name == "res"@ ==> line.st.cur_address == st.cur_address + integer.value
                    && line.st.cur_output == st.cur_output + integer.value
            }
        }),
{
    lemma_directive_names();
    if name == "address"@ || name == "output"@ || name == "res"@ {
        directive_moves_by_its_number(def, files, st, source, pos, depth, name);
    }
}

/// A data directive puts out the expressions behind it, if its width is a multiple of what one
/// address stands for and no more than 63; otherwise it is refused.
pub proof fn data_directive_puts_out_what_follows(
    def: Definition,
    files: IncludedFiles,
    st: State,
    source: Source,
    pos: int,
    depth: nat,
    name: Seq<char>,
    width: usize,
)
    requires
        can_read(st, source, pos),
        def.align_bits > 0,
        directive_is_at(source, pos, name),
        name.len() > 0 && name[0] == 'd' && decimal_number(name.skip(1)) == Some(width),
    ensures
        ({
            let line = line_parsed(def, files, st, source, pos, depth);
            let span = source.tokens@[pos + 1].span;
            if width as int % def.align_bits as int != 0 {
                stops(
                    line,
                    st,
                    pos + 2,
                    says(
                        "data directive is not aligned to `"@ + crate::text::decimal_text(
                            def.align_bits as nat,
                        ) + "` bits"@,
                        span,
                    ),
                )
            } else if width > 63 {
                stops(
                    line,
                    st,
                    pos + 2,
                    says("data directive bit width is currently not supported"@, span),
                )
            } else {
                line == data_parsed(def, st, source, pos + 2, width)
            }
        }),
{
    operators_are_read_where_they_stand(source, pos, "."@);
    identifiers_are_read_where_they_stand(source, pos + 1, name);
}

/// The expressions of a data directive are put out one by one: the one that stands first is put out
/// before anything else, and behind a comma the others follow.
pub proof fn data_is_put_out_one_by_one(
    def: Definition,
    st: State,
    source: Source,
    pos: int,
    width: usize,
)
    requires
        source.wf(),
        0 <= pos <= source.tokens@.len(),
    ensures
        ({
            let line = data_parsed(def, st, source, pos, width);
            match source.expressions@[pos] {
                ParsedExpression::Parsed { expr, length } => {
                    let next = pos + length;
                    match expression_output(def, st, expr, width) {
                        (after, Ok(_)) => if operator_stands(source, next, ","@) {
                            line == data_parsed(def, after, source, next + 1, width)
                        } else {
                            ends_with(line, after, source, next)
                        },
                        (after, Err(failure)) => stops(line, after, next, failure),
                    }
                },
                ParsedExpression::Failed(error) => stops(
                    line,
                    st,
                    pos,
                    says(error.message@, error.span),
                ),
            }
        }),
{
    lemma_expression_reaches(source, pos);
    match source.expressions@[pos] {
        ParsedExpression::Parsed { expr, length } => {
            let next = pos + length;
            operators_are_read_where_they_stand(source, next, ","@);
            lemma_line_finished(expression_output(def, st, expr, width).0, source, next);
        },
        ParsedExpression::Failed(_) => {},
    }
}

/// A directive that asks for a file has the lines of that file read in its place, as long as files
/// are not nested too deeply. A file that was not supplied is asked for.
pub proof fn nested_file_is_read_in_place(
    def: Definition,
    files: IncludedFiles,
    st: State,
    source: Source,
    pos: int,
    depth: nat,
    name: Seq<char>,
)
    requires
        can_read(st, source, pos),
        directive_is_at(source, pos, "include"@),
        text_stands(source, pos + 2, name),
    ensures
        ({
            let line = line_parsed(def, files, st, source, pos, depth);
            match files.found(source.filename@, name, 0) {
                Some(nested) => if depth == 0 {
                    stops(line, st, pos + 3, FailureView::TooDeep)
                } else {
                    match lines_parsed(
                        def,
                        files,
                        st,
                        nested,
                        file_start(nested),
                        (depth - 1) as nat,
                    ) {
                        (after, Ok(_)) => ends_with(line, after, source, pos + 3),
                        (after, Err(failure)) => stops(line, after, pos + 3, failure),
                    }
                },
                None => stops(
                    line,
                    st,
                    pos + 3,
                    FailureView::MissingFile { from: source.filename@, name },
                ),
            }
        }),
{
    lemma_directive_names();
    operators_are_read_where_they_stand(source, pos, "."@);
    identifiers_are_read_where_they_stand(source, pos + 1, "include"@);
    strings_are_read_where_they_stand(source, pos + 2, name);
    match files.found(source.filename@, name, 0) {
        Some(nested) => {
            if depth > 0 {
                let step = lines_parsed(
                    def,
                    files,
                    st,
                    nested,
                    file_start(nested),
                    (depth - 1) as nat,
                );
                lemma_line_finished(step.0, source, pos + 3);
            }
        },
        None => {},
    }
}

/// A directive that asks for a binary file takes the name of the file and changes nothing.
pub proof fn binary_file_changes_nothing(
    def: Definition,
    files: IncludedFiles,
    st: State,
    source: Source,
    pos: int,
    depth: nat,
    name: Seq<char>,
)
    requires
        can_read(st, source, pos),
        directive_is_at(source, pos, "includebin"@),
        text_stands(source, pos + 2, name),
    ensures
        ends_with(line_parsed(def, files, st, source, pos, depth), st, source, pos + 3),
{
    lemma_directive_names();
    operators_are_read_where_they_stand(source, pos, "."@);
    identifiers_are_read_where_they_stand(source, pos + 1, "includebin"@);
    strings_are_read_where_they_stand(source, pos + 2, name);
    lemma_line_finished(st, source, pos + 3);
}

/// The name of a file is a string literal; anything else is refused.
pub proof fn file_name_is_a_string(
    def: Definition,
    files: IncludedFiles,
    st: State,
    source: Source,
    pos: int,
    depth: nat,
    name: Seq<char>,
)
    requires
        can_read(st, source, pos),
        directive_is_at(source, pos, name),
        name == "include"@ || name == "includebin"@,
        forall|text: Seq<char>| !#[trigger] text_stands(source, pos + 2, text),
    ensures
        stops(
            line_parsed(def, files, st, source, pos, depth),
            st,
            pos + 2,
            says("expected string"@, place_at(source, pos + 2)),
        ),
{
    lemma_directive_names();
    operators_are_read_where_they_stand(source, pos, "."@);
    identifiers_are_read_where_they_stand(source, pos + 1, name);
    strings_are_read_where_they_stand(source, pos + 2, Seq::empty());
}

/// A directive of any other name is refused.
pub proof fn unknown_directive_is_refused(
    def: Definition,
    files: IncludedFiles,
    st: State,
    source: Source,
    pos: int,
    depth: nat,
    name: Seq<char>,
)
    requires
        can_read(st, source, pos),
        directive_is_at(source, pos, name),
        name != "address"@,
        name != "output"@,
        name != "res"@,
        name != "include"@,
        name != "includebin"@,
        name.len() > 0 && name[0] == 'd' ==> decimal_number(name.skip(1)) is None,
    ensures
        stops(
            line_parsed(def, files, st, source, pos, depth),
            st,
            pos + 2,
            says("unknown directive `"@ + name + "`"@, source.tokens@[pos + 1].span),
        ),
{
    operators_are_read_where_they_stand(source, pos, "."@);
    identifiers_are_read_where_they_stand(source, pos + 1, name);
}

// ---- Instructions ----

/// What is read as an instruction is put out as the rule says that is taken for it; without one, it
/// is refused.
pub proof fn instruction_is_put_out_by_its_rule(
    def: Definition,
    st: State,
    source: Source,
    pos: int,
)
    requires
        source.wf(),
        st.labels.wf(),
        0 <= pos <= source.tokens@.len(),
    ensures
        ({
            let line = instruction_parsed(def, st, source, pos);
            match rule_selected(def, st, source, pos, 0, None) {
                Ok(Some((instr, next))) => match instruction_output(def, st, instr) {
                    (after, Ok(_)) => ends_with(line, after, source, next),
                    (after, Err(failure)) => stops(line, after, next, failure),
                },
                Ok(None) => stops(
                    line,
                    st,
                    pos,
                    says("no match found for instruction"@, place_at(source, pos)),
                ),
                Err(failure) => stops(line, st, pos, failure),
            }
        }),
{
    match rule_selected(def, st, source, pos, 0, None) {
        Ok(Some((instr, next))) => {
            if def.rules@.len() > 0 {
                rule_choice(def, st, source, pos, 0);
            }
            matched_pattern_stands_in_the_source(def, st, source, pos, instr.rule_index);
            lemma_line_finished(instruction_output(def, st, instr).0, source, next);
        },
        _ => {},
    }
}

/// A line that is no directive, constant or label is an instruction.
pub proof fn other_lines_are_instructions(
    def: Definition,
    files: IncludedFiles,
    st: State,
    source: Source,
    pos: int,
    depth: nat,
)
    requires
        can_read(st, source, pos),
        !operator_stands(source, pos, "."@),
        forall|name: Seq<char>|
            #![trigger word_stands(source, pos, name)]
            !constant_stands(source, pos, name) && !label_stands(source, pos, name),
        forall|name: Seq<char>|
            #![trigger word_stands(source, pos + 1, name)]
            !local_label_stands(source, pos, name),
    ensures
        line_parsed(def, files, st, source, pos, depth) == instruction_parsed(
            def,
            st,
            source,
            pos,
        ),
{
    operators_are_read_where_they_stand(source, pos, "."@);
    operators_are_read_where_they_stand(source, pos, "'"@);
    operators_are_read_where_they_stand(source, pos + 1, "="@);
    operators_are_read_where_they_stand(source, pos + 1, ":"@);
    operators_are_read_where_they_stand(source, pos + 2, ":"@);
    if source.token_at(pos).spec_identifier() is Some {
        let name = source.token_at(pos).spec_identifier().unwrap();
        identifiers_are_read_where_they_stand(source, pos, name);
        assert(word_stands(source, pos, name));
    }
    if source.token_at(pos + 1).spec_identifier() is Some {
        let name = source.token_at(pos + 1).spec_identifier().unwrap();
        identifiers_are_read_where_they_stand(source, pos + 1, name);
        assert(word_stands(source, pos + 1, name));
    }
}

} // verus!
