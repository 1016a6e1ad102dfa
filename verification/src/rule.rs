//! The rules of an instruction set: how an instruction is written and which bits it stands for.

use vstd::prelude::*;
use crate::expr::{all_names, Expression, ExpressionName, KnownNames};
use crate::text::text_is;

verus! {

/// A part of the pattern of a rule.
#[derive(Debug)]
pub enum PatternSegment {
    /// An identifier or an operator that has to stand there.
    Exact(String),
    /// The argument for the parameter of that number.
    Parameter(usize),
}

/// A parameter of a rule.
#[derive(Debug)]
pub struct RuleParameter {
    pub name: String,
    /// Whether an argument may be accepted before its value is known.
    pub allow_unresolved: bool,
    /// What has to be true of an argument, which it calls `_`.
    pub constraint: Option<Expression>,
}

/// A rule.
#[derive(Debug)]
pub struct Rule {
    pub pattern_segments: Vec<PatternSegment>,
    pub parameters: Vec<RuleParameter>,
    /// The pieces of the bits that an instruction stands for.
    pub production_segments: Vec<Expression>,
    /// The number of bits that an instruction takes up.
    pub production_bit_num: usize,
}

/// The names that a production may mention: the program counter, and the parameters that the
/// pattern has an argument for and whose constraint can be checked.
pub open spec fn production_names(rule: Rule) -> spec_fn(ExpressionName) -> bool {
    |name: ExpressionName|
        match name {
            ExpressionName::GlobalVariable(name) => name@ == "pc"@ || (rule.parameter_index(
                name@,
                0,
            ) matches Some(param) && param < rule.taken_arguments() && rule.can_check(param)),
            ExpressionName::LocalVariable(_) => false,
        }
}

/// The names that a constraint may mention: the argument and the program counter.
pub open spec fn constraint_names() -> spec_fn(ExpressionName) -> bool {
    |name: ExpressionName|
        match name {
            ExpressionName::GlobalVariable(name) => name@ == "_"@ || name@ == "pc"@,
            ExpressionName::LocalVariable(_) => false,
        }
}

/// The number of arguments among the first `count` parts of a pattern.
pub open spec fn argument_count(segments: Seq<PatternSegment>, count: int) -> nat
    decreases count,
{
    if count <= 0 {
        0
    } else if segments[count - 1] is Parameter {
        argument_count(segments, count - 1) + 1
    } else {
        argument_count(segments, count - 1)
    }
}

impl Rule {
    /// The number of the first parameter, from number `i` on, that has the given name.
    pub open spec fn parameter_index(self, name: Seq<char>, i: int) -> Option<int>
        decreases self.parameters@.len() - i,
    {
        if 0 <= i < self.parameters@.len() {
            if self.parameters@[i].name@ == name {
                Some(i)
            } else {
                self.parameter_index(name, i + 1)
            }
        } else {
            None
        }
    }

    /// The number of arguments that the pattern takes.
    pub open spec fn taken_arguments(self) -> nat {
        argument_count(self.pattern_segments@, self.pattern_segments@.len() as int)
    }

    /// The constraint of the parameter, if it has one, mentions only what it may mention.
    pub open spec fn can_check(self, param: int) -> bool {
        self.parameters@[param].constraint matches Some(constraint) ==> all_names(
            constraint,
            constraint_names(),
        )
    }

    /// The pattern may take an argument for the parameter: it exists, and where its argument is
    /// looked at on the spot its constraint can be checked.
    pub open spec fn can_take(self, param: int) -> bool {
        &&& 0 <= param < self.parameters@.len()
        &&& self.parameters@[param].allow_unresolved || self.can_check(param)
    }

    /// The rule can be used with addresses that stand for `align_bits` bits each: an instruction
    /// takes up whole addresses, the pattern takes only arguments that it may take, and productions
    /// mention only what they may mention.
    pub open spec fn wf(self, align_bits: usize) -> bool {
        &&& self.production_bit_num as int % align_bits as int == 0
        &&& forall|i: int|
            0 <= i < self.pattern_segments@.len() ==> (#[trigger] self.pattern_segments@[i] matches
                PatternSegment::Parameter(param) ==> self.can_take(param as int))
        &&& forall|i: int|
            0 <= i < self.production_segments@.len() ==> all_names(
                #[trigger] self.production_segments@[i],
                production_names(self),
            )
    }

    /// The number of the parameter of that name.
    pub fn get_parameter(&self, name: &str) -> (r: Option<usize>)
        ensures
            match r {
                Some(i) => self.parameter_index(name@, 0) == Some(i as int) && i
                    < self.parameters@.len(),
                None => self.parameter_index(name@, 0) is None,
            },
    {
        let mut i: usize = 0;
        while i < self.parameters.len()
            invariant
                i <= self.parameters@.len(),
                self.parameter_index(name@, 0) == self.parameter_index(name@, i as int),
            decreases self.parameters@.len() - i,
        {
            if text_is(&self.parameters[i].name, name) {
                return Some(i);
            }
            i = i + 1;
        }
        None
    }

    /// Whether an argument for the parameter may be accepted before its value is known.
    pub fn get_parameter_allow_unresolved(&self, index: usize) -> (r: bool)
        requires
            index < self.parameters@.len(),
        ensures
            r == self.parameters@[index as int].allow_unresolved,
    {
        self.parameters[index].allow_unresolved
    }

    /// What has to be true of an argument for the parameter.
    pub fn get_parameter_constraint(&self, index: usize) -> (r: &Option<Expression>)
        requires
            index < self.parameters@.len(),
        ensures
            *r == self.parameters@[index as int].constraint,
    {
        &self.parameters[index].constraint
    }

    /// Whether the constraint of the parameter mentions only what it may mention.
    fn is_checkable(&self, index: usize) -> (r: bool)
        requires
            index < self.parameters@.len(),
        ensures
            r == self.can_check(index as int),
    {
        match &self.parameters[index].constraint {
            Some(constraint) => constraint.can_resolve(&ConstraintNames {  }),
            None => true,
        }
    }

    /// Whether the rule can be used: see `wf`.
    pub fn is_well_formed(&self, align_bits: usize) -> (r: bool)
        requires
            align_bits > 0,
        ensures
            r == self.wf(align_bits),
    {
        if self.production_bit_num % align_bits != 0 {
            return false;
        }
        let mut arguments: usize = 0;
        let mut i: usize = 0;
        while i < self.pattern_segments.len()
            invariant
                i <= self.pattern_segments@.len(),
                arguments == argument_count(self.pattern_segments@, i as int),
                arguments <= i,
                forall|k: int|
                    0 <= k < i ==> (#[trigger] self.pattern_segments@[k] matches
                        PatternSegment::Parameter(param) ==> self.can_take(param as int)),
            decreases self.pattern_segments@.len() - i,
        {
            match &self.pattern_segments[i] {
                PatternSegment::Parameter(param) => {
                    if *param >= self.parameters.len() || !(self.parameters[*param].allow_unresolved
                        || self.is_checkable(*param)) {
                        assert(!(self.pattern_segments@[i as int] matches
                            PatternSegment::Parameter(param) ==> self.can_take(param as int)));
                        return false;
                    }
                    arguments = arguments + 1;
                },
                PatternSegment::Exact(_) => {},
            }
            i = i + 1;
        }
        let mut i: usize = 0;
        while i < self.production_segments.len()
            invariant
                arguments == self.taken_arguments(),
                i <= self.production_segments@.len(),
                forall|k: int|
                    0 <= k < i ==> all_names(
                        #[trigger] self.production_segments@[k],
                        production_names(*self),
                    ),
            decreases self.production_segments@.len() - i,
        {
            let names = ProductionNames { rule: self, arguments };
            assert(names.known() =~= production_names(*self));
            if !self.production_segments[i].can_resolve(&names) {
                return false;
            }
            i = i + 1;
        }
        true
    }
}

/// The names that the productions of a rule may mention whose pattern takes that many arguments.
struct ProductionNames<'a> {
    rule: &'a Rule,
    arguments: usize,
}

impl<'a> KnownNames for ProductionNames<'a> {
    closed spec fn known(&self) -> spec_fn(ExpressionName) -> bool {
        |name: ExpressionName|
            match name {
                ExpressionName::GlobalVariable(name) => name@ == "pc"@ || (
                self.rule.parameter_index(name@, 0) matches Some(param) && param < self.arguments
                    && self.rule.can_check(param)),
                ExpressionName::LocalVariable(_) => false,
            }
    }

    fn is_known(&self, name: &ExpressionName) -> (r: bool) {
        match name {
            ExpressionName::GlobalVariable(name) => text_is(name, "pc")
                || match self.rule.get_parameter(name.as_str()) {
                Some(param) => param < self.arguments && self.rule.is_checkable(param),
                None => false,
            },
            ExpressionName::LocalVariable(_) => false,
        }
    }
}

/// The names that constraints may mention.
struct ConstraintNames {}

impl KnownNames for ConstraintNames {
    closed spec fn known(&self) -> spec_fn(ExpressionName) -> bool {
        constraint_names()
    }

    fn is_known(&self, name: &ExpressionName) -> (r: bool) {
        match name {
            ExpressionName::GlobalVariable(name) => text_is(name, "_") || text_is(name, "pc"),
            ExpressionName::LocalVariable(_) => false,
        }
    }
}

} // verus!
