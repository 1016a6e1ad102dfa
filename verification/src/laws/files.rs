//! Files that are nested in other files.

use vstd::prelude::*;
use crate::definition::Definition;
use crate::error::{FailureView, Outcome, Span};
use crate::expr::{
    all_names,
    lemma_all_names,
    resolved,
    Expression,
    ExpressionKind,
    ExpressionName,
    ExpressionValue,
};
use crate::label::{LabelContext, Labels};
use crate::laws::labels::lemma_parameter_index;
use crate::laws::lines::{lemma_after_linebreaks, lemma_found, line_keeps_state};
use crate::model::{
    advanced,
    assembled,
    constraint_checked,
    constraint_env,
    current_context,
    data_directive_width,
    data_parsed,
    directive_name_read,
    directive_parsed,
    expr_value,
    expression_output,
    initial_state,
    instruction_parsed,
    label_env,
    line_parsed,
    lines_parsed,
    pieces_written,
    production_env,
    production_value,
    rule_matched,
    rule_selected,
    segments_matched,
    written_at,
    InstructionView,
    State,
};
use crate::parser::{expression_read, file_start, string_read};
use crate::rule::{constraint_names, production_names, PatternSegment, Rule};
use crate::source::{IncludedFiles, Source};

verus! {

/// Every file that `fewer` supplies, `more` supplies as well.
pub open spec fn files_kept(fewer: IncludedFiles, more: IncludedFiles) -> bool {
    forall|from: Seq<char>, name: Seq<char>|
        (#[trigger] fewer.found(from, name, 0)) is Some ==> more.found(from, name, 0)
            == fewer.found(from, name, 0)
}

/// An outcome that a file was missing for, or for which files were nested too deeply.
pub open spec fn lacks_files<T>(outcome: Outcome<T>) -> bool {
    outcome matches Err(failure) && (failure is MissingFile || failure is TooDeep)
}

proof fn lemma_more_files_directive(
    def: Definition,
    fewer: IncludedFiles,
    more: IncludedFiles,
    st: State,
    source: Source,
    pos: int,
    depth: nat,
    deeper: nat,
)
    requires
        files_kept(fewer, more),
        depth <= deeper,
        !lacks_files(directive_parsed(def, fewer, st, source, pos, depth).result),
    ensures
        directive_parsed(def, more, st, source, pos, deeper) == directive_parsed(
            def,
            fewer,
            st,
            source,
            pos,
            depth,
        ),
    decreases depth, source.tokens@.len() - pos, 0int,
{
    match directive_name_read(source, pos) {
        (next, Ok((directive, _))) => {
            match string_read(source, next) {
                Ok((name, end)) => {
                    match fewer.found(source.filename@, name, 0) {
                        Some(nested) => {
                            if depth > 0 && data_directive_width(directive) is None && directive
                                == "include"@ && directive != "address"@ && directive != "output"@
                                && directive != "res"@ {
                                more_files_change_nothing(
                                    def,
                                    fewer,
                                    more,
                                    st,
                                    nested,
                                    file_start(nested),
                                    (depth - 1) as nat,
                                    (deeper - 1) as nat,
                                );
                            }
                        },
                        None => {},
                    }
                },
                Err(_) => {},
            }
        },
        (_, Err(_)) => {},
    }
}

/// Supplying more files, or letting files be nested more deeply, changes nothing about an outcome
/// that no file was missing for. So a caller may supply the files one by one, as they are found to
/// be missing.
pub proof fn more_files_change_nothing(
    def: Definition,
    fewer: IncludedFiles,
    more: IncludedFiles,
    st: State,
    source: Source,
    pos: int,
    depth: nat,
    deeper: nat,
)
    requires
        files_kept(fewer, more),
        depth <= deeper,
        !lacks_files(lines_parsed(def, fewer, st, source, pos, depth).1),
    ensures
        lines_parsed(def, more, st, source, pos, deeper) == lines_parsed(
            def,
            fewer,
            st,
            source,
            pos,
            depth,
        ),
    decreases depth, source.tokens@.len() - pos, 2int,
{
    if pos < source.tokens@.len() {
        if source.token_at(pos).spec_is_operator("."@) {
            lemma_more_files_directive(def, fewer, more, st, source, pos, depth, deeper);
        }
        assert(line_parsed(def, more, st, source, pos, deeper) == line_parsed(
            def,
            fewer,
            st,
            source,
            pos,
            depth,
        ));
        let line = line_parsed(def, fewer, st, source, pos, depth);
        if line.result is Ok && pos < line.pos <= source.tokens@.len() {
            more_files_change_nothing(
                def,
                fewer,
                more,
                line.st,
                source,
                line.pos,
                depth,
                deeper,
            );
        }
    }
}

/// The same holds of a whole program.
pub proof fn more_files_assemble_alike(
    def: Definition,
    source: Source,
    fewer: IncludedFiles,
    more: IncludedFiles,
)
    requires
        files_kept(fewer, more),
        fewer.max_depth <= more.max_depth,
        !lacks_files(assembled(def, source, fewer)),
    ensures
        assembled(def, source, more) == assembled(def, source, fewer),
{
    more_files_change_nothing(
        def,
        fewer,
        more,
        initial_state(),
        source,
        file_start(source),
        fewer.max_depth as nat,
        more.max_depth as nat,
    );
}

proof fn lemma_resolving_lacks_nothing(
    e: Expression,
    p: spec_fn(ExpressionName) -> bool,
    env: spec_fn(ExpressionName, Span) -> Outcome<ExpressionValue>,
)
    requires
        all_names(e, p),
        forall|name: ExpressionName, span: Span|
            p(name) ==> !lacks_files(#[trigger] env(name, span)),
    ensures
        !lacks_files(resolved(e, env)),
    decreases e,
{
    match e.kind {
        ExpressionKind::Unary(_, x) => {
            lemma_resolving_lacks_nothing(*x, p, env);
        },
        ExpressionKind::Binary(_, x, y) => {
            lemma_resolving_lacks_nothing(*x, p, env);
            lemma_resolving_lacks_nothing(*y, p, env);
        },
        ExpressionKind::Slice(x, _, _) => {
            lemma_resolving_lacks_nothing(*x, p, env);
        },
        _ => {},
    }
}

proof fn lemma_value_lacks_nothing(labels: Labels, expr: Expression, ctx: LabelContext, pc: usize)
    ensures
        !lacks_files(expr_value(labels, expr, ctx, pc)),
{
    let p = |name: ExpressionName| true;
    lemma_all_names(expr, p);
    lemma_resolving_lacks_nothing(expr, p, label_env(labels, ctx, pc));
}

proof fn lemma_constraint_lacks_nothing(
    constraint: Expression,
    argument: ExpressionValue,
    address: usize,
)
    requires
        all_names(constraint, constraint_names()),
    ensures
        !lacks_files(constraint_checked(constraint, argument, address)),
{
    lemma_resolving_lacks_nothing(
        constraint,
        constraint_names(),
        constraint_env(argument, address),
    );
}

proof fn lemma_production_lacks_nothing(
    labels: Labels,
    rule: Rule,
    instr: InstructionView,
    expr: Expression,
)
    requires
        all_names(expr, production_names(rule)),
    ensures
        !lacks_files(production_value(labels, rule, instr, expr)),
{
    assert forall|name: ExpressionName, span: Span|
        production_names(rule)(name) implies !lacks_files(
        #[trigger] production_env(labels, rule, instr)(name, span),
    ) by {
        match name {
            ExpressionName::GlobalVariable(name) => {
                if name@ != "pc"@ {
                    lemma_parameter_index(rule, name@, 0);
                    let param = rule.parameter_index(name@, 0).unwrap();
                    lemma_value_lacks_nothing(
                        labels,
                        instr.arguments[param],
                        instr.label_ctx,
                        instr.address,
                    );
                    match expr_value(
                        labels,
                        instr.arguments[param],
                        instr.label_ctx,
                        instr.address,
                    ) {
                        Ok(value) => {
                            match rule.parameters@[param].constraint {
                                Some(constraint) => {
                                    lemma_constraint_lacks_nothing(
                                        constraint,
                                        value,
                                        instr.address,
                                    );
                                },
                                None => {},
                            }
                        },
                        Err(_) => {},
                    }
                }
            },
            ExpressionName::LocalVariable(_) => {},
        }
    }
    lemma_resolving_lacks_nothing(
        expr,
        production_names(rule),
        production_env(labels, rule, instr),
    );
}

proof fn lemma_pieces_lack_nothing(
    def: Definition,
    st: State,
    instr: InstructionView,
    k: int,
    width: int,
)
    requires
        def.wf(),
        instr.rule_index < def.rules@.len(),
        0 <= k,
    ensures
        !lacks_files(pieces_written(def, st, instr, k, width).1),
    decreases def.rules@[instr.rule_index as int].production_segments@.len() - k,
{
    let rule = def.rules@[instr.rule_index as int];
    assert(rule.wf(def.align_bits));
    if k < rule.production_segments@.len() {
        let expr = rule.production_segments@[k];
        lemma_production_lacks_nothing(st.labels, rule, instr, expr);
        match production_value(st.labels, rule, instr, expr) {
            Ok(ExpressionValue::Integer(integer)) => {
                lemma_pieces_lack_nothing(
                    def,
                    written_at(def, st, instr.output + width, integer).0,
                    instr,
                    k + 1,
                    width + integer.width() as int / def.align_bits as int,
                );
            },
            _ => {},
        }
    }
}

proof fn lemma_data_lacks_nothing(
    def: Definition,
    st: State,
    source: Source,
    pos: int,
    data_width: usize,
)
    ensures
        !lacks_files(data_parsed(def, st, source, pos, data_width).result),
    decreases source.tokens@.len() - pos,
{
    match expression_read(source, pos) {
        Ok((expr, next)) => {
            lemma_value_lacks_nothing(st.labels, expr, current_context(st), st.cur_address);
            let after = expression_output(def, st, expr, data_width).0;
            if source.token_at(next).spec_is_operator(","@) && 0 <= next < source.tokens@.len() {
                lemma_data_lacks_nothing(def, after, source, next + 1, data_width);
            }
        },
        Err(_) => {},
    }
}

proof fn lemma_segments_lack_nothing(
    st: State,
    source: Source,
    rule: Rule,
    align_bits: usize,
    k: int,
    pos: int,
    arguments: Seq<Expression>,
)
    requires
        rule.wf(align_bits),
        0 <= k,
    ensures
        !lacks_files(segments_matched(st, source, rule, k, pos, arguments).1),
    decreases rule.pattern_segments@.len() - k,
{
    if k < rule.pattern_segments@.len() {
        match rule.pattern_segments@[k] {
            PatternSegment::Exact(_) => {
                lemma_segments_lack_nothing(st, source, rule, align_bits, k + 1, pos + 1, arguments);
            },
            PatternSegment::Parameter(param) => {
                match expression_read(source, pos) {
                    Ok((expr, next)) => {
                        lemma_segments_lack_nothing(
                            st,
                            source,
                            rule,
                            align_bits,
                            k + 1,
                            next,
                            arguments.push(expr),
                        );
                        lemma_value_lacks_nothing(
                            st.labels,
                            expr,
                            current_context(st),
                            st.cur_address,
                        );
                        match expr_value(st.labels, expr, current_context(st), st.cur_address) {
                            Ok(value) => {
                                match rule.parameters@[param as int].constraint {
                                    Some(constraint) => {
                                        if !rule.parameters@[param as int].allow_unresolved {
                                            lemma_constraint_lacks_nothing(
                                                constraint,
                                                value,
                                                st.cur_address,
                                            );
                                        }
                                    },
                                    None => {},
                                }
                            },
                            Err(_) => {},
                        }
                    },
                    Err(_) => {},
                }
            },
        }
    }
}

proof fn lemma_selection_lacks_nothing(
    def: Definition,
    st: State,
    source: Source,
    pos: int,
    k: int,
    best: Option<(InstructionView, int)>,
)
    requires
        def.wf(),
        0 <= k,
        best matches Some(found) ==> found.0.rule_index < def.rules@.len(),
    ensures
        !lacks_files(rule_selected(def, st, source, pos, k, best)),
        rule_selected(def, st, source, pos, k, best) matches Ok(Some(found)) ==> found.0.rule_index
            < def.rules@.len(),
    decreases def.rules@.len() - k,
{
    if k < def.rules@.len() {
        assert(def.rules.len() == def.rules@.len());
        assert(def.rules@[k].wf(def.align_bits));
        lemma_segments_lack_nothing(
            st,
            source,
            def.rules@[k],
            def.align_bits,
            0,
            pos,
            Seq::empty(),
        );
        match rule_matched(def, st, source, pos, k as usize) {
            (next, Ok(Some(instr))) => {
                lemma_selection_lacks_nothing(def, st, source, pos, k + 1, Some((instr, next)));
            },
            (_, Ok(None)) => {
                lemma_selection_lacks_nothing(def, st, source, pos, k + 1, best);
            },
            (_, Err(_)) => {},
        }
    }
}

proof fn lemma_instruction_lacks_nothing(def: Definition, st: State, source: Source, pos: int)
    requires
        def.wf(),
    ensures
        !lacks_files(instruction_parsed(def, st, source, pos).result),
{
    lemma_selection_lacks_nothing(def, st, source, pos, 0, None);
    match rule_selected(def, st, source, pos, 0, None) {
        Ok(Some((instr, _))) => {
            let bits = def.rules@[instr.rule_index as int].production_bit_num as int;
            lemma_pieces_lack_nothing(def, advanced(def, st, bits).0, instr, 0, 0);
        },
        _ => {},
    }
}

proof fn lemma_missing_in_directive(
    def: Definition,
    files: IncludedFiles,
    st: State,
    source: Source,
    pos: int,
    depth: nat,
)
    requires
        def.wf(),
        files.wf(),
        st.labels.has_context(),
    ensures
        directive_parsed(def, files, st, source, pos, depth).result matches Err(FailureView::MissingFile {
            from,
            name,
        }) ==> files.found(from, name, 0) is None,
    decreases depth, source.tokens@.len() - pos, 0int,
{
    match directive_name_read(source, pos) {
        (next, Ok((directive, _))) => {
            match data_directive_width(directive) {
                Some(width) => {
                    lemma_data_lacks_nothing(def, st, source, next, width);
                },
                None => {
                    match expression_read(source, next) {
                        Ok((expr, _)) => {
                            lemma_value_lacks_nothing(
                                st.labels,
                                expr,
                                current_context(st),
                                st.cur_address,
                            );
                        },
                        Err(_) => {},
                    }
                    match string_read(source, next) {
                        Ok((name, _)) => {
                            match files.found(source.filename@, name, 0) {
                                Some(nested) => {
                                    if depth > 0 {
                                        lemma_found(files, source.filename@, name, 0);
                                        lemma_after_linebreaks(nested, 0);
                                        missing_file_was_not_supplied(
                                            def,
                                            files,
                                            st,
                                            nested,
                                            file_start(nested),
                                            (depth - 1) as nat,
                                        );
                                    }
                                },
                                None => {},
                            }
                        },
                        Err(_) => {},
                    }
                },
            }
        },
        (_, Err(_)) => {},
    }
}

/// A file that is reported as missing was not supplied. So a caller that supplies it is asked for
/// it no more.
pub proof fn missing_file_was_not_supplied(
    def: Definition,
    files: IncludedFiles,
    st: State,
    source: Source,
    pos: int,
    depth: nat,
)
    requires
        def.wf(),
        source.wf(),
        files.wf(),
        0 <= pos <= source.tokens@.len(),
        st.labels.has_context(),
    ensures
        lines_parsed(def, files, st, source, pos, depth).1 matches Err(FailureView::MissingFile {
            from,
            name,
        }) ==> files.found(from, name, 0) is None,
    decreases depth, source.tokens@.len() - pos, 2int,
{
    if pos < source.tokens@.len() {
        lemma_missing_in_directive(def, files, st, source, pos, depth);
        lemma_instruction_lacks_nothing(def, st, source, pos);
        match expression_read(source, pos + 2) {
            Ok((expr, _)) => {
                lemma_value_lacks_nothing(st.labels, expr, current_context(st), st.cur_address);
            },
            Err(_) => {},
        }
        line_keeps_state(def, files, st, source, pos, depth);
        let line = line_parsed(def, files, st, source, pos, depth);
        if line.result is Ok {
            missing_file_was_not_supplied(def, files, line.st, source, line.pos, depth);
        }
    }
}

} // verus!
