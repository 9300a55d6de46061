//! The state of one verification query: the assertions made so far, the
//! literal constants that already have their defining assertion, and what
//! the encoder had to pass over.
//!
//! A query is consistent when each constant that it counts as defined has
//! its definition among the assertions. A fresh query is consistent, and
//! the encoder keeps it so.

use vstd::prelude::*;
use crate::formula::{Prop, Term};
use crate::text::str_eq;
use crate::utils::var_utils::{definition_of, is_consistent};

verus! {

/// Why the encoder passed over something.
#[derive(Clone, Copy, Debug, PartialEq, Eq, Structural)]
pub enum Warning {
    /// An instruction whose opcode has no encoding.
    UnsupportedOpcode,
    /// A value whose type is neither a boolean nor a supported integer.
    UnsupportedType,
    /// A call to a function that is neither known to the encoder nor part of the module.
    UnsupportedCall,
    /// A literal that is neither `true`, `false` nor a 64-bit signed integer.
    UnsupportedLiteral,
    /// A block that ends in a terminator without known successors, or in none.
    UnsupportedTerminator,
    /// An instruction with fewer operands, or operands of another kind, than its opcode needs.
    MalformedInstruction,
    /// A control flow graph with a cycle.
    CyclicCfg,
    /// A call to a function that is already being inlined.
    RecursiveCall,
    /// A phi instruction met by the encoder.
    UnexpectedPhi,
}

/// The mathematical content of a `Query`.
pub struct QueryState {
    /// The assertions, oldest first.
    pub assertions: Seq<Prop>,
    /// The names of the literal constants that are defined, oldest first.
    pub constants: Seq<Seq<char>>,
    /// The warnings, oldest first.
    pub warnings: Seq<Warning>,
}

impl QueryState {
    /// The state of a fresh query.
    pub open spec fn empty() -> QueryState {
        QueryState { assertions: seq![], constants: seq![], warnings: seq![] }
    }

    /// This state after one more assertion.
    pub open spec fn asserting(self, f: Prop) -> QueryState {
        QueryState { assertions: self.assertions.push(f), ..self }
    }

    /// This state after one more warning.
    pub open spec fn warning(self, w: Warning) -> QueryState {
        QueryState { warnings: self.warnings.push(w), ..self }
    }

    /// This state after the constant `name` got its defining assertion `f`.
    pub open spec fn defining(self, name: Seq<char>, f: Prop) -> QueryState {
        QueryState {
            assertions: self.assertions.push(f),
            constants: self.constants.push(name),
            ..self
        }
    }

    /// Whether the encoding is known to leave out part of the program, so
    /// that no answer of a decision procedure can be taken for a verdict.
    pub open spec fn incomplete(self) -> bool {
        self.warnings.contains(Warning::CyclicCfg) || self.warnings.contains(
            Warning::RecursiveCall,
        ) || self.warnings.contains(Warning::UnsupportedTerminator)
    }

    /// Whether `self` holds everything that `earlier` holds, in the same places.
    pub open spec fn extends(self, earlier: QueryState) -> bool {
        &&& earlier.assertions.is_prefix_of(self.assertions)
        &&& earlier.constants.is_prefix_of(self.constants)
        &&& earlier.warnings.is_prefix_of(self.warnings)
    }
}

/// One verification query in the making.
#[derive(Debug)]
pub struct Query {
    /// The assertions, oldest first.
    pub assertions: Vec<Term>,
    /// The names of the literal constants that are defined, oldest first.
    pub constants: Vec<String>,
    /// The warnings, oldest first.
    pub warnings: Vec<Warning>,
}

impl View for Query {
    type V = QueryState;

    open spec fn view(&self) -> QueryState {
        QueryState {
            assertions: self.assertions@.map_values(|f: Term| f@),
            constants: self.constants@.map_values(|s: String| s@),
            warnings: self.warnings@,
        }
    }
}

impl Query {
    /// A fresh query: nothing asserted, nothing defined, no warning.
    pub fn new() -> (s: Query)
        ensures
            s@ == QueryState::empty(),
            is_consistent(s@),
    {
        let s = Query { assertions: Vec::new(), constants: Vec::new(), warnings: Vec::new() };
        assert(s@.assertions =~= seq![]);
        assert(s@.constants =~= seq![]);
        assert(s@.warnings =~= seq![]);
        s
    }

    /// Adds an assertion.
    pub fn add_assertion(&mut self, f: Term)
        ensures
            final(self)@ == old(self)@.asserting(f@),
            is_consistent(old(self)@) ==> is_consistent(final(self)@),
    {
        self.assertions.push(f);
        assert(self@.assertions =~= old(self)@.assertions.push(f@));
        proof {
            if is_consistent(old(self)@) {
                assert forall|i: int| 0 <= i < self@.constants.len() implies definition_of(
                    #[trigger] self@.constants[i],
                ) is Some && self@.assertions.contains(
                    definition_of(self@.constants[i])->Some_0,
                ) by {
                    let d = definition_of(old(self)@.constants[i])->Some_0;
                    let at = choose|at: int|
                        0 <= at < old(self)@.assertions.len() && old(self)@.assertions[at] == d;
                    assert(self@.assertions[at] == d);
                }
            }
        }
    }

    /// Records a warning.
    pub fn warn(&mut self, w: Warning)
        ensures
            final(self)@ == old(self)@.warning(w),
            is_consistent(old(self)@) ==> is_consistent(final(self)@),
    {
        self.warnings.push(w);
    }

    /// Whether the constant `name` already has its defining assertion.
    pub fn is_defined(&self, name: &str) -> (r: bool)
        ensures
            r == self@.constants.contains(name@),
    {
        let mut i: usize = 0;
        while i < self.constants.len()
            invariant
                i <= self.constants.len(),
                forall|k: int| 0 <= k < i ==> self@.constants[k] != name@,
            decreases self.constants.len() - i,
        {
            if str_eq(self.constants[i].as_str(), name) {
                assert(self@.constants[i as int] == name@);
                return true;
            }
            i = i + 1;
        }
        false
    }

    /// Gives the constant `name` its defining assertion `f`. The query
    /// stays consistent where `f` is the definition that goes with `name`.
    pub fn define(&mut self, name: &str, f: Term)
        ensures
            final(self)@ == old(self)@.defining(name@, f@),
            is_consistent(old(self)@) && definition_of(name@) == Some(f@) ==> is_consistent(
                final(self)@,
            ),
    {
        self.assertions.push(f);
        self.constants.push(name.to_owned());
        assert(self@.assertions =~= old(self)@.assertions.push(f@));
        assert(self@.constants =~= old(self)@.constants.push(name@));
        proof {
            if is_consistent(old(self)@) && definition_of(name@) == Some(f@) {
                assert forall|i: int| 0 <= i < self@.constants.len() implies definition_of(
                    #[trigger] self@.constants[i],
                ) is Some && self@.assertions.contains(
                    definition_of(self@.constants[i])->Some_0,
                ) by {
                    if i < old(self)@.constants.len() {
                        let d = definition_of(old(self)@.constants[i])->Some_0;
                        let at = choose|at: int|
                            0 <= at < old(self)@.assertions.len() && old(self)@.assertions[at]
                                == d;
                        assert(self@.assertions[at] == d);
                    } else {
                        assert(self@.assertions[old(self)@.assertions.len() as int] == f@);
                    }
                }
            }
        }
    }

    /// Whether a warning of the kind `w` was recorded.
    pub fn has_warning(&self, w: Warning) -> (r: bool)
        ensures
            r == self@.warnings.contains(w),
    {
        let mut i: usize = 0;
        while i < self.warnings.len()
            invariant
                i <= self.warnings.len(),
                forall|k: int| 0 <= k < i ==> self.warnings@[k] != w,
            decreases self.warnings.len() - i,
        {
            if self.warnings[i] == w {
                return true;
            }
            i = i + 1;
        }
        false
    }

    /// Whether the encoding is known to leave out part of the program.
    pub fn is_incomplete(&self) -> (r: bool)
        ensures
            r == self@.incomplete(),
    {
        self.has_warning(Warning::CyclicCfg) || self.has_warning(Warning::RecursiveCall)
            || self.has_warning(Warning::UnsupportedTerminator)
    }
}

} // verus!
