use vstd::prelude::*;

use crate::atom::Atom;
use crate::state::{lookup, Frame, State};

verus! {

/// A binary operator of the expression language.
#[derive(Debug, Clone, Copy, PartialEq, Eq, Structural)]
pub enum Op {
    Add,
    Sub,
    Lt,
    Le,
    Gt,
    Ge,
    Eq,
    Ne,
}

/// An expression tree.
#[derive(Debug)]
pub enum S {
    Atom(Atom),
    Binary(Op, Box<S>, Box<S>),
}

/// Why running a statement failed.
#[derive(Debug)]
pub enum RunError {
    /// A non-alias assignment to a name that no frame binds.
    Uninitialized(String),
    /// Values of different variants met where one variant is required.
    TypeMismatch,
    /// An expression read a name that no frame binds.
    UnknownVariable(String),
    /// Integer arithmetic left the range of `isize`.
    Overflow,
    /// An operation on values for which the language defines none.
    Unsupported,
    /// The step budget ran out before the statement finished.
    OutOfFuel,
}

/// `x + y` (when `add`) or `x - y` on integers, checked against the range of
/// `isize`.
pub open spec fn arith(x: Atom, y: Atom, add: bool) -> Result<Atom, RunError> {
    match (x, y) {
        (Atom::Int(a), Atom::Int(b)) => {
            let n = if add { a + b } else { a - b };
            if isize::MIN <= n <= isize::MAX {
                Ok(Atom::Int(n as isize))
            } else {
                Err(RunError::Overflow)
            }
        },
        _ => if x.same_variant(&y) {
            Err(RunError::Unsupported)
        } else {
            Err(RunError::TypeMismatch)
        },
    }
}

/// The value of `op` applied to two evaluated operands.
pub open spec fn apply(op: Op, x: Atom, y: Atom) -> Result<Atom, RunError> {
    match op {
        Op::Add => arith(x, y, true),
        Op::Sub => arith(x, y, false),
        Op::Eq | Op::Ne => {
            let same = match (x, y) {
                (Atom::Int(a), Atom::Int(b)) => Some(a == b),
                (Atom::Bool(a), Atom::Bool(b)) => Some(a == b),
                (Atom::Str(a), Atom::Str(b)) => Some(a@ == b@),
                _ => None,
            };
            match same {
                Some(e) => Ok(Atom::Bool(if op == Op::Eq { e } else { !e })),
                None => if x.same_variant(&y) {
                    Err(RunError::Unsupported)
                } else {
                    Err(RunError::TypeMismatch)
                },
            }
        },
        _ => match (x, y) {
            (Atom::Int(a), Atom::Int(b)) => Ok(
                Atom::Bool(
                    match op {
                        Op::Lt => a < b,
                        Op::Le => a <= b,
                        Op::Gt => a > b,
                        _ => a >= b,
                    },
                ),
            ),
            _ => if x.same_variant(&y) {
                Err(RunError::Unsupported)
            } else {
                Err(RunError::TypeMismatch)
            },
        },
    }
}

/// The value of a single atom read as an expression: literals stand for
/// themselves, an identifier for the plain value it is bound to.
pub open spec fn eval_atom(a: Atom, frames: Seq<Frame>) -> Result<Atom, RunError> {
    match a {
        Atom::Identifier(n) => match lookup(frames, n@) {
            Some(v) => if v.is_data() {
                Ok(v)
            } else {
                Err(RunError::Unsupported)
            },
            None => Err(RunError::UnknownVariable(n)),
        },
        _ => if a.is_data() {
            Ok(a)
        } else {
            Err(RunError::Unsupported)
        },
    }
}

/// The value of an expression under a stack of frames; operands are
/// evaluated left to right and the first failure is the result.
pub open spec fn eval(e: S, frames: Seq<Frame>) -> Result<Atom, RunError>
    decreases e,
{
    match e {
        S::Atom(a) => eval_atom(a, frames),
        S::Binary(op, l, r) => match eval(*l, frames) {
            Err(err) => Err(err),
            Ok(x) => match eval(*r, frames) {
                Err(err) => Err(err),
                Ok(y) => apply(op, x, y),
            },
        },
    }
}

/// Integer addition or subtraction of two values, as `+=` and `-=` use it.
pub fn combine(x: &Atom, y: &Atom, add: bool) -> (r: Result<Atom, RunError>)
    ensures
        r == arith(*x, *y, add),
{
    match (x, y) {
        (Atom::Int(a), Atom::Int(b)) => {
            let n = if add { a.checked_add(*b) } else { a.checked_sub(*b) };
            match n {
                Some(n) => Ok(Atom::Int(n)),
                None => Err(RunError::Overflow),
            }
        },
        _ => if x.is_same_variant(y) {
            Err(RunError::Unsupported)
        } else {
            Err(RunError::TypeMismatch)
        },
    }
}

/// Applies a binary operator to two evaluated operands.
pub fn apply_op(op: Op, x: &Atom, y: &Atom) -> (r: Result<Atom, RunError>)
    ensures
        r == apply(op, *x, *y),
{
    match op {
        Op::Add => combine(x, y, true),
        Op::Sub => combine(x, y, false),
        Op::Eq | Op::Ne => {
            let same = match (x, y) {
                (Atom::Int(a), Atom::Int(b)) => Some(*a == *b),
                (Atom::Bool(a), Atom::Bool(b)) => Some(*a == *b),
                (Atom::Str(a), Atom::Str(b)) => Some(*a == *b),
                _ => None,
            };
            match same {
                Some(e) => Ok(Atom::Bool(if op == Op::Eq { e } else { !e })),
                None => if x.is_same_variant(y) {
                    Err(RunError::Unsupported)
                } else {
                    Err(RunError::TypeMismatch)
                },
            }
        },
        _ => match (x, y) {
            (Atom::Int(a), Atom::Int(b)) => Ok(
                Atom::Bool(
                    match op {
                        Op::Lt => *a < *b,
                        Op::Le => *a <= *b,
                        Op::Gt => *a > *b,
                        _ => *a >= *b,
                    },
                ),
            ),
            _ => if x.is_same_variant(y) {
                Err(RunError::Unsupported)
            } else {
                Err(RunError::TypeMismatch)
            },
        },
    }
}

/// Evaluates an expression against the interpreter's frames.
pub fn eval_expr(e: &S, state: &State) -> (r: Result<Atom, RunError>)
    requires
        state.wf(),
    ensures
        r == eval(*e, state@),
    decreases e,
{
    match e {
        S::Atom(Atom::Identifier(n)) => match state.get_variable(n.as_str()) {
            Some(v) => match v.copy_data() {
                Some(c) => Ok(c),
                None => Err(RunError::Unsupported),
            },
            None => Err(RunError::UnknownVariable(n.clone())),
        },
        S::Atom(a) => match a.copy_data() {
            Some(c) => Ok(c),
            None => Err(RunError::Unsupported),
        },
        S::Binary(op, l, r) => {
            let x = eval_expr(l, state)?;
            let y = eval_expr(r, state)?;
            apply_op(*op, &x, &y)
        },
    }
}

} // verus!
