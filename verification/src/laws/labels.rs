//! Labels keep their values, and stay within their contexts.

use vstd::prelude::*;
use crate::definition::Definition;
use crate::error::{error_at, Span};
use crate::expr::{
    all_names,
    lemma_names_imply,
    lemma_same_value,
    Expression,
    ExpressionName,
    ExpressionValue,
};
use crate::label::{LabelContext, Labels};
use crate::model::{
    current_context,
    expr_resolvable,
    expr_value,
    instruction_resolvable,
    known_names,
    label_env,
    line_parsed,
    production_env,
    production_value,
    stopped,
    InstructionView,
    State,
};
use crate::rule::{production_names, Rule};
use crate::source::{IncludedFiles, Source};
use crate::text::quoted;

verus! {

/// Every name of `earlier` is a name of `later`, with the same value.
pub open spec fn values_kept(
    earlier: Map<Seq<char>, ExpressionValue>,
    later: Map<Seq<char>, ExpressionValue>,
) -> bool {
    forall|name: Seq<char>| #[trigger]
        earlier.dom().contains(name) ==> later.dom().contains(name) && later[name] == earlier[name]
}

/// Every label of `earlier` is a label of `later`, with the same value.
pub open spec fn labels_kept(earlier: Labels, later: Labels) -> bool {
    &&& values_kept(earlier.globals, later.globals)
    &&& earlier.locals.len() <= later.locals.len()
    &&& forall|i: int|
        0 <= i < earlier.locals.len() ==> values_kept(
            #[trigger] earlier.locals[i],
            later.locals[i],
        )
}

/// A name that is known stays known and keeps its value, whatever labels are added.
pub proof fn known_name_keeps_value(
    earlier: Labels,
    later: Labels,
    ctx: LabelContext,
    pc: usize,
    name: ExpressionName,
    span: Span,
)
    requires
        labels_kept(earlier, later),
        known_names(earlier, ctx)(name),
    ensures
        known_names(later, ctx)(name),
        label_env(later, ctx, pc)(name, span) == label_env(earlier, ctx, pc)(name, span),
        label_env(later, ctx, pc)(name, span) is Ok,
{
    match name {
        ExpressionName::GlobalVariable(name) => {
            if name@ != "pc"@ {
                assert(earlier.globals.dom().contains(name@));
                assert(later.globals.dom().contains(name@));
            }
        },
        ExpressionName::LocalVariable(name) => {
            assert(values_kept(earlier.locals[ctx.index as int], later.locals[ctx.index as int]));
            assert(earlier.locals[ctx.index as int].dom().contains(name@));
            assert(later.locals[ctx.index as int].dom().contains(name@));
        },
    }
}

/// An expression whose value is known keeps that value: it does not matter whether it is
/// resolved where it is read or after more labels were added.
pub proof fn known_value_stays(
    earlier: Labels,
    later: Labels,
    expr: Expression,
    ctx: LabelContext,
    pc: usize,
)
    requires
        labels_kept(earlier, later),
        expr_resolvable(earlier, expr, ctx),
    ensures
        expr_resolvable(later, expr, ctx),
        expr_value(later, expr, ctx, pc) == expr_value(earlier, expr, ctx, pc),
{
    assert forall|name: ExpressionName| #[trigger] known_names(earlier, ctx)(name) implies
        known_names(later, ctx)(name) by {
        known_name_keeps_value(earlier, later, ctx, pc, name, expr.span);
    }
    lemma_names_imply(expr, known_names(earlier, ctx), known_names(later, ctx));
    assert forall|name: ExpressionName, span: Span|
        known_names(earlier, ctx)(name) implies #[trigger] label_env(earlier, ctx, pc)(name, span)
        == label_env(later, ctx, pc)(name, span) by {
        known_name_keeps_value(earlier, later, ctx, pc, name, span);
    }
    lemma_same_value(
        expr,
        known_names(earlier, ctx),
        label_env(earlier, ctx, pc),
        label_env(later, ctx, pc),
    );
}

/// Resolving an expression whose value is known finds every name that it looks up.
pub proof fn known_expression_finds_its_names(
    labels: Labels,
    expr: Expression,
    ctx: LabelContext,
    pc: usize,
)
    requires
        expr_resolvable(labels, expr, ctx),
    ensures
        all_names(
            expr,
            |name: ExpressionName|
                forall|span: Span| #[trigger] label_env(labels, ctx, pc)(name, span) is Ok,
        ),
{
    let found = |name: ExpressionName|
        forall|span: Span| #[trigger] label_env(labels, ctx, pc)(name, span) is Ok;
    assert forall|name: ExpressionName| #[trigger] known_names(labels, ctx)(name) implies found(
        name,
    ) by {
        assert forall|span: Span| #[trigger] label_env(labels, ctx, pc)(name, span) is Ok by {
            known_name_keeps_value(labels, labels, ctx, pc, name, span);
        }
    }
    lemma_names_imply(expr, known_names(labels, ctx), found);
}

/// Instructions keep their bits, too: where all arguments are known, every piece of the production
/// has the same value after more labels were added.
pub proof fn known_production_stays(
    earlier: Labels,
    later: Labels,
    rule: Rule,
    instr: InstructionView,
    expr: Expression,
)
    requires
        labels_kept(earlier, later),
        instruction_resolvable(earlier, instr),
        rule.taken_arguments() <= instr.arguments.len(),
        all_names(expr, production_names(rule)),
    ensures
        instruction_resolvable(later, instr),
        production_value(later, rule, instr, expr) == production_value(earlier, rule, instr, expr),
{
    assert forall|i: int| 0 <= i < instr.arguments.len() implies expr_resolvable(
        later,
        #[trigger] instr.arguments[i],
        instr.label_ctx,
    ) by {
        known_value_stays(earlier, later, instr.arguments[i], instr.label_ctx, instr.address);
    }
    assert forall|name: ExpressionName, span: Span|
        production_names(rule)(name) implies #[trigger] production_env(earlier, rule, instr)(
        name,
        span,
    ) == production_env(later, rule, instr)(name, span) by {
        match name {
            ExpressionName::GlobalVariable(name) => {
                if name@ != "pc"@ {
                    lemma_parameter_index(rule, name@, 0);
                    let param = rule.parameter_index(name@, 0).unwrap();
                    known_value_stays(
                        earlier,
                        later,
                        instr.arguments[param],
                        instr.label_ctx,
                        instr.address,
                    );
                }
            },
            ExpressionName::LocalVariable(_) => {},
        }
    }
    lemma_same_value(
        expr,
        production_names(rule),
        production_env(earlier, rule, instr),
        production_env(later, rule, instr),
    );
}

pub(crate) proof fn lemma_parameter_index(rule: Rule, name: Seq<char>, i: int)
    requires
        0 <= i,
    ensures
        rule.parameter_index(name, i) matches Some(k) ==> i <= k < rule.parameters@.len(),
    decreases rule.parameters@.len() - i,
{
    if i < rule.parameters@.len() {
        lemma_parameter_index(rule, name, i + 1);
    }
}

/// A global label starts a context without local labels; the local labels of all other contexts
/// stay as they are.
pub proof fn global_label_starts_empty_context(
    labels: Labels,
    name: Seq<char>,
    value: ExpressionValue,
    ctx: LabelContext,
    local: Seq<char>,
)
    requires
        labels.has_context(),
    ensures
        labels.with_global(name, value).global(name) == Some(value),
        labels.with_global(name, value).cur_context() == labels.cur_context() + 1,
        ctx.index <= labels.cur_context() ==> labels.with_global(name, value).local(ctx, local)
            == labels.local(ctx, local),
        ctx.index > labels.cur_context() ==> labels.with_global(name, value).local(ctx, local) is None,
{
}

/// A local label is known in its own context and in no other one.
pub proof fn local_label_stays_in_its_context(
    labels: Labels,
    ctx: LabelContext,
    name: Seq<char>,
    value: ExpressionValue,
    other: LabelContext,
    other_name: Seq<char>,
)
    requires
        ctx.index < labels.locals.len(),
    ensures
        labels.with_local(ctx, name, value).local(ctx, name) == Some(value),
        labels.with_local(ctx, name, value).globals == labels.globals,
        (other != ctx || other_name != name) ==> labels.with_local(ctx, name, value).local(
            other,
            other_name,
        ) == labels.local(other, other_name),
{
}

/// A global label that is defined cannot be defined once more, neither as a label nor as a
/// constant; trying it changes nothing.
pub proof fn redefinition_is_refused(
    def: Definition,
    files: IncludedFiles,
    st: State,
    source: Source,
    pos: int,
    depth: nat,
    name: Seq<char>,
)
    requires
        st.labels.global(name) is Some,
        source.token_at(pos).spec_identifier() == Some(name),
        source.token_at(pos + 1).spec_is_operator("="@) || source.token_at(
            pos + 1,
        ).spec_is_operator(":"@),
    ensures
        line_parsed(def, files, st, source, pos, depth) == stopped(
            st,
            pos + 2,
            error_at(quoted("duplicate global label `"@, name), source.token_at(pos).span),
        ),
{
}

/// A local label that is defined cannot be defined once more in the same context; trying it changes
/// nothing.
pub proof fn local_redefinition_is_refused(
    def: Definition,
    files: IncludedFiles,
    st: State,
    source: Source,
    pos: int,
    depth: nat,
    name: Seq<char>,
)
    requires
        st.labels.local(current_context(st), name) is Some,
        source.token_at(pos).spec_is_operator("'"@),
        source.token_at(pos + 1).spec_identifier() == Some(name),
        source.token_at(pos + 2).spec_is_operator(":"@),
    ensures
        line_parsed(def, files, st, source, pos, depth) == stopped(
            st,
            pos + 3,
            error_at(quoted("duplicate local label `"@, name), source.token_at(pos + 1).span),
        ),
{
    reveal_strlit(".");
    reveal_strlit("'");
    assert("."@[0] != "'"@[0]);
}

} // verus!
