use vstd::prelude::*;

use crate::expr::S;
use crate::statement::Block;

verus! {

/// A runtime value, as it flows through both execution strategies.
#[derive(Debug, PartialEq)]
pub enum Atom {
    Int(isize),
    Bool(bool),
    Str(String),
    /// A reference to a variable inside an expression tree; never the value of
    /// an evaluated expression.
    Identifier(String),
    /// The early-exit marker produced by `break` and consumed by the nearest
    /// enclosing loop.
    Break,
    Call(FunctionCall),
    Function(FunctionData),
}

/// A call of a named function with its argument expressions.
#[derive(Debug)]
pub struct FunctionCall {
    pub name: String,
    pub args: Vec<S>,
}

/// A function definition: parameter names and body.
#[derive(Debug)]
pub struct FunctionData {
    pub arg_names: Vec<String>,
    pub fn_block: Block,
}

/// Two calls never compare equal.
impl PartialEq for FunctionCall {
    fn eq(&self, _rhs: &Self) -> (r: bool)
        ensures
            !r,
    {
        false
    }
}

impl vstd::std_specs::cmp::PartialEqSpecImpl for FunctionCall {
    open spec fn obeys_eq_spec() -> bool {
        false
    }

    open spec fn eq_spec(&self, _rhs: &FunctionCall) -> bool {
        false
    }
}

/// Two function definitions never compare equal.
impl PartialEq for FunctionData {
    fn eq(&self, _rhs: &Self) -> (r: bool)
        ensures
            !r,
    {
        false
    }
}

impl vstd::std_specs::cmp::PartialEqSpecImpl for FunctionData {
    open spec fn obeys_eq_spec() -> bool {
        false
    }

    open spec fn eq_spec(&self, _rhs: &FunctionData) -> bool {
        false
    }
}

impl Atom {
    /// Plain data: what evaluating an expression can produce and a variable
    /// can be read back as.
    pub open spec fn is_data(&self) -> bool {
        self is Int || self is Bool || self is Str
    }

    /// Both values are of the same variant.
    pub open spec fn same_variant(&self, other: &Atom) -> bool {
        match (self, other) {
            (Atom::Int(_), Atom::Int(_)) => true,
            (Atom::Bool(_), Atom::Bool(_)) => true,
            (Atom::Str(_), Atom::Str(_)) => true,
            (Atom::Identifier(_), Atom::Identifier(_)) => true,
            (Atom::Break, Atom::Break) => true,
            (Atom::Call(_), Atom::Call(_)) => true,
            (Atom::Function(_), Atom::Function(_)) => true,
            _ => false,
        }
    }

    pub fn is_same_variant(&self, other: &Atom) -> (r: bool)
        ensures
            r == self.same_variant(other),
    {
        match (self, other) {
            (Atom::Int(_), Atom::Int(_)) => true,
            (Atom::Bool(_), Atom::Bool(_)) => true,
            (Atom::Str(_), Atom::Str(_)) => true,
            (Atom::Identifier(_), Atom::Identifier(_)) => true,
            (Atom::Break, Atom::Break) => true,
            (Atom::Call(_), Atom::Call(_)) => true,
            (Atom::Function(_), Atom::Function(_)) => true,
            _ => false,
        }
    }

    /// A copy of a plain data value; `None` for any other variant.
    pub fn copy_data(&self) -> (r: Option<Atom>)
        ensures
            self.is_data() ==> r == Some(*self),
            !self.is_data() ==> r is None,
    {
        match self {
            Atom::Int(i) => Some(Atom::Int(*i)),
            Atom::Bool(b) => Some(Atom::Bool(*b)),
            Atom::Str(s) => Some(Atom::Str(s.clone())),
            _ => None,
        }
    }
}

} // verus!
