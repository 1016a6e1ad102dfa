//! The assembler. A first pass reads the source line by line, defines the labels and writes what
//! it can; a second pass writes what had to wait for labels further down.

use vstd::pervasive::unreached;
use vstd::prelude::*;
use crate::bitvec::BitVec;
use crate::definition::Definition;
use crate::error::{fail, fail_quoting, outcome, Error, Failure, FailureView, Outcome, Span};
use crate::expr::{
    all_names,
    lemma_all_names,
    lemma_names_imply,
    Expression,
    ExpressionName,
    ExpressionValue,
    KnownNames,
    Scope,
};
use crate::integer::Integer;
use crate::label::{LabelContext, LabelManager};
use crate::model::{
    advanced,
    argument_accepted,
    argument_value,
    assembled,
    completed,
    constant_parsed,
    constraint_checked,
    constraint_env,
    current_context,
    data_directive_width,
    data_item,
    data_parsed,
    directive_parsed,
    expr_resolvable,
    expr_value,
    expr_value_here,
    expression_completed,
    expression_output,
    expressions_completed,
    global_label_parsed,
    initial_state,
    instruction_output,
    instruction_parsed,
    instruction_resolvable,
    instruction_resolved,
    instructions_completed,
    integer_extracted,
    known_names,
    label_env,
    line_parsed,
    lines_parsed,
    local_label_parsed,
    number_read,
    pieces_written,
    production_env,
    production_value,
    reserved,
    rule_matched,
    rule_selected,
    segments_matched,
    written,
    written_at,
    InstructionView,
    Reached,
    State,
    Step,
};
use crate::parser::{file_start, Parser};
use crate::rule::{constraint_names, production_names, argument_count, PatternSegment, Rule};
use crate::source::{IncludedFiles, Source};
use crate::text::{decimal, parse_decimal, text_is};

verus! {

/// An instruction that a rule was found for, with the circumstances in which it appeared and its
/// arguments as they are written.
#[derive(Debug)]
pub struct Instruction {
    pub rule_index: usize,
    pub label_ctx: LabelContext,
    pub address: usize,
    pub output: usize,
    pub arguments: Vec<Expression>,
}

impl View for Instruction {
    type V = InstructionView;

    open spec fn view(&self) -> InstructionView {
        InstructionView {
            rule_index: self.rule_index,
            label_ctx: self.label_ctx,
            address: self.address,
            output: self.output,
            arguments: self.arguments@,
        }
    }
}

/// An expression of a data directive that could not be resolved when it was read, with the
/// circumstances in which it appeared.
#[derive(Debug)]
pub struct UnresolvedExpression {
    pub expr: Expression,
    pub label_ctx: LabelContext,
    pub address: usize,
    pub output: usize,
    pub data_width: usize,
}

/// What the assembler knows while it is at work.
pub struct Assembler<'def> {
    pub def: &'def Definition,
    pub cur_address: usize,
    pub cur_output: usize,
    pub labels: LabelManager,
    pub unresolved_instructions: Vec<Instruction>,
    pub unresolved_expressions: Vec<UnresolvedExpression>,
    pub output_bits: BitVec,
}

impl<'def> View for Assembler<'def> {
    type V = State;

    open spec fn view(&self) -> State {
        State {
            cur_address: self.cur_address,
            cur_output: self.cur_output,
            labels: self.labels@,
            unresolved_instructions: self.unresolved_instructions@.map_values(
                |instr: Instruction| instr@,
            ),
            unresolved_expressions: self.unresolved_expressions@,
            output_bits: self.output_bits@,
        }
    }
}

/// The instruction belongs to a rule, and has the arguments that its pattern takes.
pub open spec fn instruction_wf(def: Definition, instr: InstructionView) -> bool {
    &&& instr.rule_index < def.rules@.len()
    &&& def.rules@[instr.rule_index as int].taken_arguments() <= instr.arguments.len()
}

/// The instructions that wait belong to rules, and have the arguments that these take.
pub open spec fn instructions_wf(def: Definition, st: State) -> bool {
    forall|i: int|
        0 <= i < st.unresolved_instructions.len() ==> instruction_wf(
            def,
            #[trigger] st.unresolved_instructions[i],
        )
}

/// A state that the assembler can be in.
pub open spec fn state_wf(def: Definition, st: State) -> bool {
    st.labels.wf() && instructions_wf(def, st)
}

/// The values of names in the program.
struct LabelScope<'a> {
    labels: &'a LabelManager,
    ctx: LabelContext,
    pc: usize,
}

impl<'a> Scope for LabelScope<'a> {
    closed spec fn admits(&self) -> spec_fn(ExpressionName) -> bool {
        |name: ExpressionName| true
    }

    closed spec fn env(&self) -> spec_fn(ExpressionName, Span) -> Outcome<ExpressionValue> {
        label_env(self.labels@, self.ctx, self.pc)
    }

    fn lookup(&self, name: &ExpressionName, span: Span) -> (r: Result<ExpressionValue, Failure>) {
        match name {
            ExpressionName::GlobalVariable(name) => if text_is(name, "pc") {
                Ok(ExpressionValue::Integer(Integer::new(self.pc as i64)))
            } else {
                match self.labels.get_global(name.as_str()) {
                    Some(value) => Ok(value),
                    None => Err(fail_quoting("unknown `", name.as_str(), span)),
                }
            },
            ExpressionName::LocalVariable(name) => match self.labels.get_local(
                self.ctx,
                name.as_str(),
            ) {
                Some(value) => Ok(value),
                None => Err(fail_quoting("unknown local `", name.as_str(), span)),
            },
        }
    }
}

impl<'a> KnownNames for LabelScope<'a> {
    closed spec fn known(&self) -> spec_fn(ExpressionName) -> bool {
        known_names(self.labels@, self.ctx)
    }

    fn is_known(&self, name: &ExpressionName) -> (r: bool) {
        match name {
            ExpressionName::GlobalVariable(name) => text_is(name, "pc")
                || self.labels.does_global_exist(name.as_str()),
            ExpressionName::LocalVariable(name) => self.labels.does_local_exist(
                self.ctx,
                name.as_str(),
            ),
        }
    }
}

/// The values of the names in a constraint.
struct ConstraintScope {
    argument: ExpressionValue,
    address: usize,
}

impl Scope for ConstraintScope {
    closed spec fn admits(&self) -> spec_fn(ExpressionName) -> bool {
        constraint_names()
    }

    closed spec fn env(&self) -> spec_fn(ExpressionName, Span) -> Outcome<ExpressionValue> {
        constraint_env(self.argument, self.address)
    }

    fn lookup(&self, name: &ExpressionName, span: Span) -> (r: Result<ExpressionValue, Failure>) {
        match name {
            ExpressionName::GlobalVariable(name) => if text_is(name, "_") {
                Ok(self.argument)
            } else {
                Ok(ExpressionValue::Integer(Integer::new(self.address as i64)))
            },
            ExpressionName::LocalVariable(_) => unreached(),
        }
    }
}

/// The values of the names in the production of an instruction.
struct ProductionScope<'a, 'def> {
    assembler: &'a Assembler<'def>,
    rule: &'a Rule,
    instr: &'a Instruction,
}

impl<'a, 'def> Scope for ProductionScope<'a, 'def> {
    closed spec fn admits(&self) -> spec_fn(ExpressionName) -> bool {
        |name: ExpressionName|
            {
                &&& production_names(*self.rule)(name)
                &&& self.rule.taken_arguments() <= self.instr.arguments@.len()
            }
    }

    closed spec fn env(&self) -> spec_fn(ExpressionName, Span) -> Outcome<ExpressionValue> {
        production_env(self.assembler@.labels, *self.rule, self.instr@)
    }

    fn lookup(&self, name: &ExpressionName, span: Span) -> (r: Result<ExpressionValue, Failure>) {
        match name {
            ExpressionName::GlobalVariable(name) => if text_is(name, "pc") {
                Ok(ExpressionValue::Integer(Integer::new(self.instr.address as i64)))
            } else {
                match self.rule.get_parameter(name.as_str()) {
                    Some(param_index) => self.assembler.resolve_argument(
                        self.rule,
                        self.instr,
                        param_index,
                    ),
                    None => unreached(),
                }
            },
            ExpressionName::LocalVariable(_) => unreached(),
        }
    }
}

impl<'def> Assembler<'def> {
    /// The definition can be used, and the state is one that the assembler can be in.
    pub open spec fn wf(self) -> bool {
        &&& self.def.wf()
        &&& state_wf(*self.def, self@)
    }

    /// The assembler went over from `before` to the expected state, and reports success or the
    /// expected failure.
    pub open spec fn became(
        self,
        before: Assembler<'def>,
        r: Result<(), Failure>,
        expected: Step,
    ) -> bool {
        &&& self@ == expected.0
        &&& self.wf()
        &&& self.def == before.def
        &&& outcome(r) == expected.1
    }

    /// Whether the value of an expression is known by now.
    pub fn can_resolve_expr(&self, expr: &Expression, ctx: LabelContext) -> (r: bool)
        ensures
            r == expr_resolvable(self@.labels, *expr, ctx),
    {
        expr.can_resolve(&LabelScope { labels: &self.labels, ctx, pc: 0 })
    }

    /// The value of an expression in a context and at an address.
    pub fn resolve_expr(&self, expr: &Expression, ctx: LabelContext, pc: usize) -> (r: Result<
        ExpressionValue,
        Failure,
    >)
        ensures
            outcome(r) == expr_value(self@.labels, *expr, ctx, pc),
    {
        proof {
            lemma_all_names(*expr, |name: ExpressionName| true);
        }
        expr.resolve(&LabelScope { labels: &self.labels, ctx, pc })
    }

    /// The value of an expression where the program is now.
    pub fn resolve_expr_current(&self, expr: &Expression) -> (r: Result<ExpressionValue, Failure>)
        requires
            self.wf(),
        ensures
            outcome(r) == expr_value_here(self@, *expr),
    {
        let label_ctx = self.labels.get_cur_context();
        let address: usize = self.cur_address;
        self.resolve_expr(expr, label_ctx, address)
    }

    /// Whether a constraint is true of an argument.
    pub fn check_constraint(
        &self,
        constraint: &Expression,
        argument: &ExpressionValue,
        address: usize,
    ) -> (r: Result<bool, Failure>)
        requires
            all_names(*constraint, constraint_names()),
        ensures
            outcome(r) == constraint_checked(*constraint, *argument, address),
    {
        match constraint.resolve(&ConstraintScope { argument: *argument, address }) {
            Ok(ExpressionValue::Boolean(holds)) => Ok(holds),
            Ok(_) => Err(fail("invalid constraint expression type", constraint.span)),
            Err(failure) => Err(failure),
        }
    }

    /// The number that a value has to be.
    pub fn extract_integer(&self, value: ExpressionValue, span: Span) -> (r: Result<usize, Failure>)
        ensures
            outcome(r) == integer_extracted(value, span),
    {
        match value {
            ExpressionValue::Integer(integer) => Ok(integer.value as usize),
            _ => Err(fail("expected integer value", span)),
        }
    }

    /// Whether the values of all arguments of an instruction are known by now.
    pub fn can_resolve_instruction(&self, instr: &Instruction) -> (r: bool)
        ensures
            r == instruction_resolvable(self@.labels, instr@),
    {
        let mut i: usize = 0;
        while i < instr.arguments.len()
            invariant
                i <= instr.arguments@.len(),
                forall|k: int|
                    0 <= k < i ==> expr_resolvable(
                        self@.labels,
                        #[trigger] instr@.arguments[k],
                        instr.label_ctx,
                    ),
            decreases instr.arguments@.len() - i,
        {
            if !self.can_resolve_expr(&instr.arguments[i], instr.label_ctx) {
                assert(!expr_resolvable(
                    self@.labels,
                    instr@.arguments[i as int],
                    instr.label_ctx,
                ));
                return false;
            }
            i = i + 1;
        }
        true
    }

    /// The value of the argument for a parameter, which has to meet the parameter's constraint.
    pub fn resolve_argument(&self, rule: &Rule, instr: &Instruction, param_index: usize) -> (r:
        Result<ExpressionValue, Failure>)
        requires
            param_index < rule.parameters@.len(),
            param_index < instr.arguments@.len(),
            rule.can_check(param_index as int),
        ensures
            outcome(r) == argument_value(self@.labels, *rule, instr@, param_index as int),
    {
        let arg_expr = &instr.arguments[param_index];
        let arg_value = match self.resolve_expr(arg_expr, instr.label_ctx, instr.address) {
            Ok(value) => value,
            Err(failure) => {
                return Err(failure);
            },
        };
        match rule.get_parameter_constraint(param_index) {
            None => Ok(arg_value),
            Some(constraint) => match self.check_constraint(
                constraint,
                &arg_value,
                instr.address,
            ) {
                Ok(true) => Ok(arg_value),
                Ok(false) => Err(fail("parameter constraint not satisfied", arg_expr.span)),
                Err(failure) => Err(failure),
            },
        }
    }

    /// The value of a piece of the production of an instruction.
    pub fn resolve_production(&self, rule: &Rule, instr: &Instruction, expr: &Expression) -> (r:
        Result<ExpressionValue, Failure>)
        requires
            rule.taken_arguments() <= instr.arguments@.len(),
            all_names(*expr, production_names(*rule)),
        ensures
            outcome(r) == production_value(self@.labels, *rule, instr@, *expr),
    {
        let scope = ProductionScope { assembler: self, rule, instr };
        proof {
            lemma_names_imply(*expr, production_names(*rule), scope.admits());
        }
        expr.resolve(&scope)
    }
}

impl<'def> Assembler<'def> {
    /// Goes on by a number of bits.
    pub fn advance_address(&mut self, bit_num: usize) -> (r: Result<(), Failure>)
        requires
            old(self).wf(),
            bit_num as int % old(self).def.align_bits as int == 0,
        ensures
            final(self).became(*old(self), r, advanced(*old(self).def, old(self)@, bit_num as int)),
    {
        let address_inc: usize = bit_num / self.def.align_bits;
        let output: usize = match self.cur_output.checked_add(address_inc) {
            Some(sum) => sum,
            None => {
                return Err(Failure::Overflow);
            },
        };
        let address: usize = match self.cur_address.checked_add(address_inc) {
            Some(sum) => sum,
            None => {
                return Err(Failure::Overflow);
            },
        };
        self.cur_output = output;
        self.cur_address = address;
        Ok(())
    }

    /// Writes an integer at an output position, which is counted in addresses.
    pub fn output_aligned_at(&mut self, index: usize, value: &Integer) -> (r: Result<(), Failure>)
        requires
            old(self).wf(),
        ensures
            final(self).became(
                *old(self),
                r,
                written_at(*old(self).def, old(self)@, index as int, *value),
            ),
    {
        let aligned_index: usize = match index.checked_mul(self.def.align_bits) {
            Some(product) => product,
            None => {
                return Err(Failure::Overflow);
            },
        };
        match aligned_index.checked_add(value.get_width()) {
            Some(_) => {
                self.output_bits.set(aligned_index, value);
                Ok(())
            },
            None => Err(Failure::Overflow),
        }
    }

    /// Writes an integer at the current output position and goes on behind it.
    pub fn output_aligned(&mut self, value: &Integer) -> (r: Result<(), Failure>)
        requires
            old(self).wf(),
            value.width() as int % old(self).def.align_bits as int == 0,
        ensures
            final(self).became(*old(self), r, written(*old(self).def, old(self)@, *value)),
    {
        let index: usize = self.cur_output;
        match self.output_aligned_at(index, value) {
            Ok(()) => self.advance_address(value.get_width()),
            Err(failure) => Err(failure),
        }
    }

    /// Puts out an expression of a data directive, now or in the second pass.
    pub fn output_expression(&mut self, expr: Expression, data_width: usize) -> (r: Result<
        (),
        Failure,
    >)
        requires
            old(self).wf(),
            data_width as int % old(self).def.align_bits as int == 0,
        ensures
            final(self).became(
                *old(self),
                r,
                expression_output(*old(self).def, old(self)@, expr, data_width),
            ),
    {
        let label_ctx = self.labels.get_cur_context();
        // Try resolving the expression immediately.
        if self.can_resolve_expr(&expr, label_ctx) {
            match self.resolve_expr(&expr, label_ctx, self.cur_address) {
                Ok(ExpressionValue::Integer(integer)) => {
                    if data_width == 0 {
                        return Err(Failure::Overflow);
                    }
                    self.output_aligned(&integer.slice(data_width - 1, 0))
                },
                Ok(_) => Err(fail("invalid expression type", expr.span)),
                Err(failure) => Err(failure),
            }
        } else {
            // If unresolvable now, store it to be resolved in the second pass.
            let ghost before = self@;
            self.unresolved_expressions.push(
                UnresolvedExpression {
                    expr,
                    label_ctx,
                    address: self.cur_address,
                    output: self.cur_output,
                    data_width,
                },
            );
            assert(self@.unresolved_expressions == before.unresolved_expressions.push(
                data_item(before, expr, data_width),
            ));
            assert(self@.unresolved_instructions == before.unresolved_instructions);
            self.advance_address(data_width)
        }
    }

    /// Writes an instruction at its place.
    pub fn resolve_instruction(&mut self, instr: &Instruction) -> (r: Result<(), Failure>)
        requires
            old(self).wf(),
            instruction_wf(*old(self).def, instr@),
        ensures
            final(self).became(
                *old(self),
                r,
                instruction_resolved(*old(self).def, old(self)@, instr@),
            ),
    {
        let def = self.def;
        let rule = &def.rules[instr.rule_index];
        assert(rule.wf(def.align_bits));
        let mut width: usize = 0;
        let mut k: usize = 0;
        while k < rule.production_segments.len()
            invariant
                self.wf(),
                self.def == def,
                def == old(self).def,
                instruction_wf(*def, instr@),
                *rule == def.rules@[instr.rule_index as int],
                rule.wf(def.align_bits),
                k <= rule.production_segments@.len(),
                pieces_written(*def, old(self)@, instr@, 0, 0) == pieces_written(
                    *def,
                    self@,
                    instr@,
                    k as int,
                    width as int,
                ),
            decreases rule.production_segments@.len() - k,
        {
            let expr = &rule.production_segments[k];
            match self.resolve_production(rule, instr, expr) {
                Ok(ExpressionValue::Integer(integer)) => {
                    let index: usize = match instr.output.checked_add(width) {
                        Some(sum) => sum,
                        None => {
                            proof {
                                lemma_index_bound(instr.output + width, def.align_bits as int);
                            }
                            return Err(Failure::Overflow);
                        },
                    };
                    match self.output_aligned_at(index, &integer) {
                        Ok(()) => {},
                        Err(failure) => {
                            return Err(failure);
                        },
                    }
                    proof {
                        lemma_index_bound(index as int, def.align_bits as int);
                        lemma_quotient_bound(
                            index as int,
                            integer.width() as int,
                            def.align_bits as int,
                        );
                    }
                    width = width + integer.get_width() / def.align_bits;
                },
                Ok(_) => {
                    return Err(fail("invalid production expression type", expr.span));
                },
                Err(failure) => {
                    return Err(failure);
                },
            }
            k = k + 1;
        }
        Ok(())
    }

    /// Puts out an instruction, now or in the second pass.
    pub fn output_instruction(&mut self, instr: Instruction) -> (r: Result<(), Failure>)
        requires
            old(self).wf(),
            instruction_wf(*old(self).def, instr@),
        ensures
            final(self).became(
                *old(self),
                r,
                instruction_output(*old(self).def, old(self)@, instr@),
            ),
    {
        let def = self.def;
        let rule = &def.rules[instr.rule_index];
        assert(rule.wf(def.align_bits));
        match self.advance_address(rule.production_bit_num) {
            Ok(()) => {},
            Err(failure) => {
                return Err(failure);
            },
        }
        // Try resolving the instruction's arguments immediately.
        if self.can_resolve_instruction(&instr) {
            self.resolve_instruction(&instr)
        } else {
            // If unresolvable now, store it to be resolved in the second pass.
            let ghost before = self@;
            self.unresolved_instructions.push(instr);
            assert(self@.unresolved_instructions =~= before.unresolved_instructions.push(instr@));
            Ok(())
        }
    }
}

impl<'def> Assembler<'def> {
    /// The assembler and the parser went over to the expected state and position, and report
    /// success or the expected failure. A line that is read takes up at least one token.
    pub open spec fn arrived(
        self,
        before: Assembler<'def>,
        parser: Parser,
        parser_before: Parser,
        r: Result<(), Failure>,
        expected: Reached,
    ) -> bool {
        &&& self@ == expected.st
        &&& self.wf()
        &&& self.def == before.def
        &&& parser.moved_to(parser_before, expected.pos)
        &&& parser_before.index <= expected.pos
        &&& outcome(r) == expected.result
        &&& r is Ok && parser_before.index < parser_before.source.tokens@.len()
            ==> parser_before.index < expected.pos
    }

    /// Reads the expressions of a data directive.
    pub fn parse_data_directive(&mut self, parser: &mut Parser, data_size: usize) -> (r: Result<
        (),
        Failure,
    >)
        requires
            old(self).wf(),
            old(parser).wf(),
            data_size as int % old(self).def.align_bits as int == 0,
        ensures
            final(self).arrived(
                *old(self),
                *final(parser),
                *old(parser),
                r,
                data_parsed(
                    *old(self).def,
                    old(self)@,
                    *old(parser).source,
                    old(parser).index as int,
                    data_size,
                ),
            ),
    {
        // Parse expressions until there isn't a comma.
        loop
            invariant
                self.wf(),
                self.def == old(self).def,
                parser.wf(),
                parser.source == old(parser).source,
                parser.index >= old(parser).index,
                data_size as int % old(self).def.align_bits as int == 0,
                data_parsed(
                    *old(self).def,
                    old(self)@,
                    *old(parser).source,
                    old(parser).index as int,
                    data_size,
                ) == data_parsed(
                    *self.def,
                    self@,
                    *parser.source,
                    parser.index as int,
                    data_size,
                ),
            decreases parser.source.tokens@.len() - parser.index,
        {
            let expr = match parser.expect_expression() {
                Ok(expr) => expr,
                Err(failure) => {
                    return Err(failure);
                },
            };
            match self.output_expression(expr, data_size) {
                Ok(()) => {},
                Err(failure) => {
                    return Err(failure);
                },
            }
            if !parser.match_operator(",") {
                return parser.expect_linebreak_or_end();
            }
        }
    }

    /// Reads the definition of a constant.
    pub fn parse_global_constant(&mut self, parser: &mut Parser) -> (r: Result<(), Failure>)
        requires
            old(self).wf(),
            old(parser).wf(),
        ensures
            final(self).arrived(
                *old(self),
                *final(parser),
                *old(parser),
                r,
                constant_parsed(old(self)@, *old(parser).source, old(parser).index as int),
            ),
    {
        let (label, label_span) = match parser.expect_identifier() {
            Ok(found) => found,
            Err(failure) => {
                return Err(failure);
            },
        };
        match parser.expect_operator("=") {
            Ok(()) => {},
            Err(failure) => {
                return Err(failure);
            },
        }
        // Check for duplicate global labels.
        if self.labels.does_global_exist(label.as_str()) {
            return Err(fail_quoting("duplicate global label `", label.as_str(), label_span));
        }
        // Resolve constant value.
        let expr = match parser.expect_expression() {
            Ok(expr) => expr,
            Err(failure) => {
                return Err(failure);
            },
        };
        let value = match self.resolve_expr_current(&expr) {
            Ok(value) => value,
            Err(failure) => {
                return Err(failure);
            },
        };
        // Store it.
        self.labels.add_global(label, value);
        parser.expect_linebreak_or_end()
    }

    /// Reads a global label.
    pub fn parse_global_label(&mut self, parser: &mut Parser) -> (r: Result<(), Failure>)
        requires
            old(self).wf(),
            old(parser).wf(),
        ensures
            final(self).arrived(
                *old(self),
                *final(parser),
                *old(parser),
                r,
                global_label_parsed(old(self)@, *old(parser).source, old(parser).index as int),
            ),
    {
        let (label, label_span) = match parser.expect_identifier() {
            Ok(found) => found,
            Err(failure) => {
                return Err(failure);
            },
        };
        match parser.expect_operator(":") {
            Ok(()) => {},
            Err(failure) => {
                return Err(failure);
            },
        }
        // Check for duplicate global labels.
        if self.labels.does_global_exist(label.as_str()) {
            return Err(fail_quoting("duplicate global label `", label.as_str(), label_span));
        }
        // Store as current address.
        self.labels.add_global(
            label,
            ExpressionValue::Integer(Integer::new(self.cur_address as i64)),
        );
        parser.expect_linebreak_or_end()
    }

    /// Reads a local label.
    pub fn parse_local_label(&mut self, parser: &mut Parser) -> (r: Result<(), Failure>)
        requires
            old(self).wf(),
            old(parser).wf(),
        ensures
            final(self).arrived(
                *old(self),
                *final(parser),
                *old(parser),
                r,
                local_label_parsed(old(self)@, *old(parser).source, old(parser).index as int),
            ),
    {
        match parser.expect_operator("'") {
            Ok(()) => {},
            Err(failure) => {
                return Err(failure);
            },
        }
        let (label, label_span) = match parser.expect_identifier() {
            Ok(found) => found,
            Err(failure) => {
                return Err(failure);
            },
        };
        match parser.expect_operator(":") {
            Ok(()) => {},
            Err(failure) => {
                return Err(failure);
            },
        }
        let local_ctx = self.labels.get_cur_context();
        // Check for duplicate local labels within the same context.
        if self.labels.does_local_exist(local_ctx, label.as_str()) {
            return Err(fail_quoting("duplicate local label `", label.as_str(), label_span));
        }
        // Store as current address.
        self.labels.add_local(
            local_ctx,
            label,
            ExpressionValue::Integer(Integer::new(self.cur_address as i64)),
        );
        parser.expect_linebreak_or_end()
    }

    /// Whether an expression is accepted as the argument for a parameter.
    pub fn accept_argument(&self, rule: &Rule, param_index: usize, expr: &Expression) -> (r: Result<
        bool,
        Failure,
    >)
        requires
            self.wf(),
            rule.can_take(param_index as int),
        ensures
            outcome(r) == argument_accepted(self@, *rule, param_index as int, *expr),
    {
        if rule.get_parameter_allow_unresolved(param_index) {
            return Ok(true);
        }
        let label_ctx = self.labels.get_cur_context();
        if !self.can_resolve_expr(expr, label_ctx) {
            return Ok(false);
        }
        match rule.get_parameter_constraint(param_index) {
            None => Ok(true),
            Some(constraint) => match self.resolve_expr(expr, label_ctx, self.cur_address) {
                Ok(value) => self.check_constraint(constraint, &value, self.cur_address),
                Err(failure) => Err(failure),
            },
        }
    }

    /// Tries a rule on what stands at the parser's position.
    pub fn try_match_rule(&self, parser: &mut Parser, rule_index: usize) -> (r: Result<
        Option<Instruction>,
        Failure,
    >)
        requires
            self.wf(),
            old(parser).wf(),
            rule_index < self.def.rules@.len(),
        ensures
            ({
                let (pos, expected) = rule_matched(
                    *self.def,
                    self@,
                    *old(parser).source,
                    old(parser).index as int,
                    rule_index,
                );
                &&& final(parser).moved_to(*old(parser), pos)
                &&& pos >= old(parser).index
                &&& match expected {
                    Ok(Some(instr)) => {
                        &&& r matches Ok(Some(found))
                        &&& found@ == instr
                        &&& instruction_wf(*self.def, instr)
                    },
                    Ok(None) => r matches Ok(None),
                    Err(failure) => r is Err && r->Err_0@ == failure,
                }
            }),
    {
        let rule = &self.def.rules[rule_index];
        assert(rule.wf(self.def.align_bits));
        let mut instr = Instruction {
            label_ctx: self.labels.get_cur_context(),
            rule_index,
            address: self.cur_address,
            output: self.cur_output,
            arguments: Vec::new(),
        };
        // Try matching against every segment in the rule pattern.
        let mut k: usize = 0;
        while k < rule.pattern_segments.len()
            invariant
                self.wf(),
                rule_index < self.def.rules@.len(),
                *rule == self.def.rules@[rule_index as int],
                rule.wf(self.def.align_bits),
                k <= rule.pattern_segments@.len(),
                parser.wf(),
                parser.source == old(parser).source,
                parser.index >= old(parser).index,
                instr.label_ctx == current_context(self@),
                instr.rule_index == rule_index,
                instr.address == self.cur_address,
                instr.output == self.cur_output,
                instr.arguments@.len() == argument_count(rule.pattern_segments@, k as int),
                segments_matched(
                    self@,
                    *old(parser).source,
                    *rule,
                    0,
                    old(parser).index as int,
                    Seq::empty(),
                ) == segments_matched(
                    self@,
                    *parser.source,
                    *rule,
                    k as int,
                    parser.index as int,
                    instr.arguments@,
                ),
            decreases rule.pattern_segments@.len() - k,
        {
            match &rule.pattern_segments[k] {
                PatternSegment::Exact(chars) => {
                    let token = parser.current();
                    let matches_word: bool = match token.identifier() {
                        Some(name) => *name == *chars,
                        None => token.is_operator(chars.as_str()),
                    };
                    if !matches_word {
                        return Ok(None);
                    }
                    parser.advance();
                },
                PatternSegment::Parameter(param_index) => {
                    let expr = match parser.expect_expression() {
                        Ok(expr) => expr,
                        Err(failure) => {
                            return Err(failure);
                        },
                    };
                    match self.accept_argument(rule, *param_index, &expr) {
                        Ok(true) => {},
                        Ok(false) => {
                            return Ok(None);
                        },
                        Err(failure) => {
                            return Err(failure);
                        },
                    }
                    instr.arguments.push(expr);
                },
            }
            k = k + 1;
        }
        Ok(Some(instr))
    }

    /// Reads an instruction.
    pub fn parse_instruction<'p>(&mut self, parser: &mut Parser<'p>) -> (r: Result<(), Failure>)
        requires
            old(self).wf(),
            old(parser).wf(),
        ensures
            final(self).arrived(
                *old(self),
                *final(parser),
                *old(parser),
                r,
                instruction_parsed(
                    *old(self).def,
                    old(self)@,
                    *old(parser).source,
                    old(parser).index as int,
                ),
            ),
    {
        let mut maybe_match: Option<(Instruction, Parser<'p>)> = None;
        let instr_span = parser.current().span;
        let mut rule_index: usize = 0;
        let ghost mut selected: Option<(InstructionView, int)> = None;
        let mut done: bool = false;
        // Try every rule from the definition.
        while !done && rule_index < self.def.rules.len()
            invariant
                *self == *old(self),
                *parser == *old(parser),
                self.wf(),
                parser.wf(),
                rule_index <= self.def.rules@.len(),
                match maybe_match {
                    Some((instr, rule_parser)) => {
                        &&& selected == Some((instr@, rule_parser.index as int))
                        &&& instruction_wf(*self.def, instr@)
                        &&& rule_parser.moved_to(*parser, rule_parser.index as int)
                        &&& rule_parser.index >= parser.index
                    },
                    None => selected is None,
                },
                !done ==> rule_selected(
                    *self.def,
                    self@,
                    *parser.source,
                    parser.index as int,
                    0,
                    None,
                ) == rule_selected(
                    *self.def,
                    self@,
                    *parser.source,
                    parser.index as int,
                    rule_index as int,
                    selected,
                ),
                done ==> rule_selected(
                    *self.def,
                    self@,
                    *parser.source,
                    parser.index as int,
                    0,
                    None,
                ) == Ok::<Option<(InstructionView, int)>, FailureView>(selected),
            decreases self.def.rules@.len() - rule_index,
        {
            // Clone the parser, to maintain the current one stationary.
            // If the rule doesn't match, the clone is simply discarded.
            // If it does match, the clone will become the main parser.
            let mut rule_parser = parser.clone_from_current();
            match self.try_match_rule(&mut rule_parser, rule_index) {
                Ok(Some(instr)) => {
                    done = self.can_resolve_instruction(&instr);
                    proof {
                        selected = Some((instr@, rule_parser.index as int));
                    }
                    maybe_match = Some((instr, rule_parser));
                },
                Ok(None) => {
                    // If the rule didn't match, just continue trying with the next rule.
                },
                Err(failure) => {
                    return Err(failure);
                },
            }
            rule_index = rule_index + 1;
        }
        // Check whether there was a rule match.
        match maybe_match {
            Some((instr, new_parser)) => {
                *parser = new_parser;
                match self.output_instruction(instr) {
                    Ok(()) => parser.expect_linebreak_or_end(),
                    Err(failure) => Err(failure),
                }
            },
            None => Err(fail("no match found for instruction", instr_span)),
        }
    }
}

impl<'def> Assembler<'def> {
    /// Reads the number that an expression stands for.
    fn parse_number(&self, parser: &mut Parser) -> (r: Result<usize, Failure>)
        requires
            self.wf(),
            old(parser).wf(),
        ensures
            ({
                let (pos, expected) = number_read(
                    self@,
                    *old(parser).source,
                    old(parser).index as int,
                );
                &&& final(parser).moved_to(*old(parser), pos)
                &&& pos >= old(parser).index
                &&& outcome(r) == expected
            }),
    {
        let expr = match parser.expect_expression() {
            Ok(expr) => expr,
            Err(failure) => {
                return Err(failure);
            },
        };
        match self.resolve_expr_current(&expr) {
            Ok(value) => self.extract_integer(value, expr.span),
            Err(failure) => Err(failure),
        }
    }

    /// The width that a directive asks for, if it is a data directive.
    fn data_width(directive: &String) -> (r: Option<usize>)
        ensures
            r == data_directive_width(directive@),
    {
        let text = directive.as_str();
        let length: usize = text.unicode_len();
        if length > 0 && text.get_char(0) == 'd' {
            assert(text@.subrange(1, length as int) =~= text@.skip(1));
            parse_decimal(text.substring_char(1, length))
        } else {
            None
        }
    }

    /// Reads a directive.
    pub fn parse_directive(&mut self, parser: &mut Parser, files: &IncludedFiles, depth: usize) -> (r:
        Result<(), Failure>)
        requires
            old(self).wf(),
            old(parser).wf(),
            files.wf(),
        ensures
            final(self).arrived(
                *old(self),
                *final(parser),
                *old(parser),
                r,
                directive_parsed(
                    *old(self).def,
                    *files,
                    old(self)@,
                    *old(parser).source,
                    old(parser).index as int,
                    depth as nat,
                ),
            ),
        decreases depth, 0int,
    {
        match parser.expect_operator(".") {
            Ok(()) => {},
            Err(failure) => {
                return Err(failure);
            },
        }
        let (directive, directive_span) = match parser.expect_identifier() {
            Ok(found) => found,
            Err(failure) => {
                return Err(failure);
            },
        };
        // If there is a valid number after a 'd', check it, and then call a more specialized
        // function.
        match Self::data_width(&directive) {
            Some(data_width) => {
                if data_width % self.def.align_bits != 0 {
                    let mut message = "data directive is not aligned to `".to_owned();
                    message.append(decimal(self.def.align_bits).as_str());
                    message.append("` bits");
                    return Err(Failure::Error(Error::new_with_span(message, directive_span)));
                }
                if data_width > 63 {
                    return Err(
                        fail("data directive bit width is currently not supported", directive_span),
                    );
                }
                return self.parse_data_directive(parser, data_width);
            },
            None => {},
        }
        // Parse text-only directives.
        if text_is(&directive, "address") {
            match self.parse_number(parser) {
                Ok(number) => {
                    self.cur_address = number;
                },
                Err(failure) => {
                    return Err(failure);
                },
            }
        } else if text_is(&directive, "output") {
            match self.parse_number(parser) {
                Ok(number) => {
                    self.cur_output = number;
                },
                Err(failure) => {
                    return Err(failure);
                },
            }
        } else if text_is(&directive, "res") {
            let count: usize = match self.parse_number(parser) {
                Ok(number) => number,
                Err(failure) => {
                    return Err(failure);
                },
            };
            match self.reserve(count) {
                Ok(()) => {},
                Err(failure) => {
                    return Err(failure);
                },
            }
        } else if text_is(&directive, "include") {
            let name = match parser.expect_string() {
                Ok(name) => name,
                Err(failure) => {
                    return Err(failure);
                },
            };
            match files.find(parser.get_filename(), &name) {
                Some(nested) => {
                    if depth == 0 {
                        return Err(Failure::TooDeep);
                    }
                    match self.parse_file(nested, files, depth - 1) {
                        Ok(()) => {},
                        Err(failure) => {
                            return Err(failure);
                        },
                    }
                },
                None => {
                    return Err(
                        Failure::MissingFile { from: parser.get_filename().clone(), name },
                    );
                },
            }
        } else if text_is(&directive, "includebin") {
            match parser.expect_string() {
                Ok(_) => {},
                Err(failure) => {
                    return Err(failure);
                },
            }
        } else {
            return Err(fail_quoting("unknown directive `", directive.as_str(), directive_span));
        }
        parser.expect_linebreak_or_end()
    }

    /// Keeps room for a number of addresses free.
    fn reserve(&mut self, count: usize) -> (r: Result<(), Failure>)
        requires
            old(self).wf(),
        ensures
            final(self).became(*old(self), r, reserved(*old(self).def, old(self)@, count)),
    {
        match self.def.align_bits.checked_mul(count) {
            Some(bits) => {
                proof {
                    vstd::arithmetic::div_mod::lemma_mod_multiples_basic(
                        count as int,
                        self.def.align_bits as int,
                    );
                    vstd::arithmetic::mul::lemma_mul_is_commutative(
                        count as int,
                        self.def.align_bits as int,
                    );
                }
                self.advance_address(bits)
            },
            None => Err(Failure::Overflow),
        }
    }

    /// Reads all lines of a file and decides how to decode them.
    pub fn parse_file(&mut self, source: &Source, files: &IncludedFiles, depth: usize) -> (r: Result<
        (),
        Failure,
    >)
        requires
            old(self).wf(),
            source.wf(),
            files.wf(),
        ensures
            final(self).became(
                *old(self),
                r,
                lines_parsed(
                    *old(self).def,
                    *files,
                    old(self)@,
                    *source,
                    file_start(*source),
                    depth as nat,
                ),
            ),
        decreases depth, 1int,
    {
        let mut parser = Parser::new(source);
        while !parser.is_over()
            invariant
                self.wf(),
                self.def == old(self).def,
                files.wf(),
                parser.wf(),
                parser.source == source,
                lines_parsed(
                    *old(self).def,
                    *files,
                    old(self)@,
                    *source,
                    file_start(*source),
                    depth as nat,
                ) == lines_parsed(
                    *self.def,
                    *files,
                    self@,
                    *source,
                    parser.index as int,
                    depth as nat,
                ),
            decreases source.tokens@.len() - parser.index,
        {
            proof {
                reveal_with_fuel(lines_parsed, 2);
                reveal_with_fuel(line_parsed, 2);
            }
            let r = if parser.current().is_operator(".") {
                self.parse_directive(&mut parser, files, depth)
            } else if parser.current().is_identifier() && parser.next(1).is_operator("=") {
                self.parse_global_constant(&mut parser)
            } else if parser.current().is_identifier() && parser.next(1).is_operator(":") {
                self.parse_global_label(&mut parser)
            } else if parser.current().is_operator("'") && parser.next(1).is_identifier()
                && parser.next(2).is_operator(":") {
                self.parse_local_label(&mut parser)
            } else {
                self.parse_instruction(&mut parser)
            };
            match r {
                Ok(()) => {},
                Err(failure) => {
                    return Err(failure);
                },
            }
        }
        Ok(())
    }

    /// Writes all that was left over by the first pass.
    fn complete(&mut self) -> (r: Result<(), Failure>)
        requires
            old(self).wf(),
        ensures
            final(self).became(*old(self), r, completed(*old(self).def, old(self)@)),
    {
        // Resolve remaining instructions.
        let mut instrs: Vec<Instruction> = Vec::new();
        std::mem::swap(&mut instrs, &mut self.unresolved_instructions);
        let ghost views = old(self)@.unresolved_instructions;
        let ghost emptied = State { unresolved_instructions: Seq::empty(), ..old(self)@ };
        assert(self@ =~= emptied);
        let mut i: usize = 0;
        while i < instrs.len()
            invariant
                self.wf(),
                self.def == old(self).def,
                i <= instrs@.len(),
                views == instrs@.map_values(|instr: Instruction| instr@),
                views == old(self)@.unresolved_instructions,
                emptied == (State { unresolved_instructions: Seq::empty(), ..old(self)@ }),
                forall|k: int|
                    0 <= k < views.len() ==> instruction_wf(*old(self).def, #[trigger] views[k]),
                self@.unresolved_expressions == old(self)@.unresolved_expressions,
                instructions_completed(*old(self).def, emptied, views, 0)
                    == instructions_completed(*old(self).def, self@, views, i as int),
            decreases instrs@.len() - i,
        {
            assert(views[i as int] == instrs@[i as int]@);
            let ghost before = self@;
            match self.resolve_instruction(&instrs[i]) {
                Ok(()) => {},
                Err(failure) => {
                    return Err(failure);
                },
            }
            proof {
                crate::laws::lines::pieces_change_output_only(*self.def, before, views[i as int], 0, 0);
            }
            i = i + 1;
        }
        // Resolve remaining expressions in literals.
        let mut exprs: Vec<UnresolvedExpression> = Vec::new();
        let ghost done = self@;
        std::mem::swap(&mut exprs, &mut self.unresolved_expressions);
        let ghost drained = State { unresolved_expressions: Seq::empty(), ..done };
        assert(self@ =~= drained);
        let mut i: usize = 0;
        while i < exprs.len()
            invariant
                self.wf(),
                self.def == old(self).def,
                i <= exprs@.len(),
                exprs@ == old(self)@.unresolved_expressions,
                completed(*old(self).def, old(self)@) == expressions_completed(
                    *old(self).def,
                    drained,
                    exprs@,
                    0,
                ),
                expressions_completed(*old(self).def, drained, exprs@, 0)
                    == expressions_completed(*old(self).def, self@, exprs@, i as int),
            decreases exprs@.len() - i,
        {
            match self.complete_expression(&exprs[i]) {
                Ok(()) => {},
                Err(failure) => {
                    return Err(failure);
                },
            }
            i = i + 1;
        }
        Ok(())
    }

    /// Writes an expression of a data directive that was left over.
    fn complete_expression(&mut self, pending: &UnresolvedExpression) -> (r: Result<(), Failure>)
        requires
            old(self).wf(),
        ensures
            final(self).became(
                *old(self),
                r,
                expression_completed(*old(self).def, old(self)@, *pending),
            ),
    {
        match self.resolve_expr(&pending.expr, pending.label_ctx, pending.address) {
            Ok(ExpressionValue::Integer(integer)) => {
                if pending.data_width == 0 {
                    return Err(Failure::Overflow);
                }
                self.output_aligned_at(pending.output, &integer.slice(pending.data_width - 1, 0))
            },
            Ok(_) => Err(fail("invalid expression", pending.expr.span)),
            Err(failure) => Err(failure),
        }
    }
}

/// Assembles a program: gives the bits that it stands for.
pub fn assemble(def: &Definition, source: &Source, files: &IncludedFiles) -> (r: Result<
    BitVec,
    Failure,
>)
    requires
        def.wf(),
        source.wf(),
        files.wf(),
    ensures
        match assembled(*def, *source, *files) {
            Ok(bits) => r is Ok && r->Ok_0@ == bits,
            Err(failure) => r is Err && r->Err_0@ == failure,
        },
{
    // Prepare an assembler state.
    let mut assembler = Assembler {
        def,
        cur_address: 0,
        cur_output: 0,
        labels: LabelManager::new(),
        unresolved_instructions: Vec::new(),
        unresolved_expressions: Vec::new(),
        output_bits: BitVec::new(),
    };
    assert(assembler@ =~= initial_state());
    // First pass: parse the main file.
    match assembler.parse_file(source, files, files.max_depth) {
        Ok(()) => {},
        Err(failure) => {
            return Err(failure);
        },
    }
    // Second pass: resolve what remains.
    match assembler.complete() {
        Ok(()) => Ok(assembler.output_bits),
        Err(failure) => Err(failure),
    }
}

proof fn lemma_index_bound(index: int, align_bits: int)
    requires
        0 <= index,
        align_bits > 0,
    ensures
        index * align_bits >= index,
{
    assert(index * align_bits >= index) by (nonlinear_arith)
        requires
            0 <= index,
            align_bits > 0,
    ;
}

proof fn lemma_quotient_bound(index: int, width: int, align_bits: int)
    requires
        0 <= index,
        0 <= width,
        align_bits > 0,
    ensures
        index + width / align_bits <= index * align_bits + width,
{
    lemma_index_bound(index, align_bits);
    vstd::arithmetic::div_mod::lemma_div_is_ordered_by_denominator(width, 1, align_bits);
    assert(width / 1 == width);
}

} // verus!
