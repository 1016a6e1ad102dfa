//! The labels of a program: global ones, and local ones that belong to a stretch between two
//! global labels.

use vstd::hash_map::StringHashMap;
use vstd::prelude::*;
use crate::expr::ExpressionValue;

verus! {

/// A stretch of the program within which local labels are known. Each global label starts a
/// new one.
#[derive(Clone, Copy, Debug, PartialEq, Eq, Structural)]
pub struct LabelContext {
    pub index: usize,
}

/// All labels that are defined so far.
pub struct LabelManager {
    globals: StringHashMap<ExpressionValue>,
    locals: Vec<StringHashMap<ExpressionValue>>,
}

/// The values of all labels: of the global ones by name, and of the local ones by context and
/// name.
#[verifier::ext_equal]
pub struct Labels {
    pub globals: Map<Seq<char>, ExpressionValue>,
    pub locals: Seq<Map<Seq<char>, ExpressionValue>>,
}

impl Labels {
    /// No labels, and one context to put local labels in.
    pub open spec fn none() -> Labels {
        Labels { globals: Map::empty(), locals: seq![Map::empty()] }
    }

    /// There is a current context.
    pub open spec fn has_context(self) -> bool {
        self.locals.len() > 0
    }

    /// There is always a current context, and a machine integer can hold its number.
    pub open spec fn wf(self) -> bool {
        0 < self.locals.len() <= usize::MAX
    }

    /// The context that local labels are added to: the latest one.
    pub open spec fn cur_context(self) -> int {
        self.locals.len() - 1
    }

    /// The value of a global label.
    pub open spec fn global(self, name: Seq<char>) -> Option<ExpressionValue> {
        if self.globals.dom().contains(name) {
            Some(self.globals[name])
        } else {
            None
        }
    }

    /// The value of a local label of the given context.
    pub open spec fn local(self, ctx: LabelContext, name: Seq<char>) -> Option<ExpressionValue> {
        if ctx.index < self.locals.len() && self.locals[ctx.index as int].dom().contains(name) {
            Some(self.locals[ctx.index as int][name])
        } else {
            None
        }
    }

    /// The labels after a global one was added, which starts a new context.
    pub open spec fn with_global(self, name: Seq<char>, value: ExpressionValue) -> Labels {
        Labels {
            globals: self.globals.insert(name, value),
            locals: self.locals.push(Map::empty()),
        }
    }

    /// The labels after a local one was added to the given context.
    pub open spec fn with_local(
        self,
        ctx: LabelContext,
        name: Seq<char>,
        value: ExpressionValue,
    ) -> Labels {
        Labels {
            globals: self.globals,
            locals: self.locals.update(
                ctx.index as int,
                self.locals[ctx.index as int].insert(name, value),
            ),
        }
    }
}

impl View for LabelManager {
    type V = Labels;

    closed spec fn view(&self) -> Labels {
        Labels {
            globals: self.globals@,
            locals: Seq::new(self.locals@.len(), |i: int| self.locals@[i]@),
        }
    }
}

impl LabelManager {
    /// No labels.
    pub fn new() -> (r: LabelManager)
        ensures
            r@ == Labels::none(),
            r@.wf(),
    {
        let mut locals: Vec<StringHashMap<ExpressionValue>> = Vec::new();
        locals.push(StringHashMap::new());
        let r = LabelManager { globals: StringHashMap::new(), locals };
        assert(r@ =~= Labels::none());
        r
    }

    /// The context that the program is in.
    pub fn get_cur_context(&self) -> (r: LabelContext)
        requires
            self@.wf(),
        ensures
            r.index == self@.cur_context(),
    {
        LabelContext { index: self.locals.len() - 1 }
    }

    /// Whether there is a global label of that name.
    pub fn does_global_exist(&self, name: &str) -> (r: bool)
        ensures
            r == self@.global(name@) is Some,
    {
        self.globals.contains_key(name)
    }

    /// Whether there is a local label of that name in the given context.
    pub fn does_local_exist(&self, ctx: LabelContext, name: &str) -> (r: bool)
        ensures
            r == self@.local(ctx, name@) is Some,
    {
        ctx.index < self.locals.len() && self.locals[ctx.index].contains_key(name)
    }

    /// Gives a global label its value and starts a new context.
    pub fn add_global(&mut self, name: String, value: ExpressionValue)
        ensures
            final(self)@ == old(self)@.with_global(name@, value),
            final(self)@.wf(),
    {
        self.globals.insert(name, value);
        self.locals.push(StringHashMap::new());
        assert(self.locals.len() == self.locals@.len());
        assert(self@ =~= old(self)@.with_global(name@, value));
    }

    /// Gives a local label of the given context its value.
    pub fn add_local(&mut self, ctx: LabelContext, name: String, value: ExpressionValue)
        requires
            ctx.index < old(self)@.locals.len(),
        ensures
            final(self)@ == old(self)@.with_local(ctx, name@, value),
            final(self)@.wf(),
    {
        self.locals[ctx.index].insert(name, value);
        assert(self.locals.len() == self.locals@.len());
        assert(self@ =~= old(self)@.with_local(ctx, name@, value));
    }

    /// The value of a global label.
    pub fn get_global(&self, name: &str) -> (r: Option<ExpressionValue>)
        ensures
            r == self@.global(name@),
    {
        match self.globals.get(name) {
            Some(value) => Some(*value),
            None => None,
        }
    }

    /// The value of a local label of the given context.
    pub fn get_local(&self, ctx: LabelContext, name: &str) -> (r: Option<ExpressionValue>)
        ensures
            r == self@.local(ctx, name@),
    {
        if ctx.index < self.locals.len() {
            match self.locals[ctx.index].get(name) {
                Some(value) => Some(*value),
                None => None,
            }
        } else {
            None
        }
    }
}

} // verus!
