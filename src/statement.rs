use vstd::prelude::*;

use crate::atom::Atom;
use crate::expr::{arith, combine, eval, eval_expr, RunError, S};
use crate::state::{assign, bind_innermost, lookup, Frame, Scope, State};

verus! {

/// One assignment statement.
#[derive(Debug)]
pub struct Declaration {
    pub lhs: String,
    pub rhs: S,
    /// Always bind in the innermost frame, shadowing any outer binding.
    pub alias: bool,
    /// `Some(true)` for `+=`, `Some(false)` for `-=`, `None` for plain assignment.
    pub plus_or_minus: Option<bool>,
}

/// A conditional: the then-block runs when `cond` is `true`, else the else-block.
#[derive(Debug)]
pub struct If {
    pub cond: S,
    pub then_block: Block,
    pub else_block: Block,
}

/// A loop that runs its block while `cond` is `true`.
#[derive(Debug)]
pub struct While {
    pub cond: S,
    pub loop_block: Block,
}

/// An ordered sequence of statements.
#[derive(Debug)]
pub struct Block {
    pub statements: Vec<Stmt>,
}

/// A statement of the language.
#[derive(Debug)]
pub enum Stmt {
    ExprStmt(S),
    PrintStmt(S),
    Dec(Declaration),
    IfStmt(If),
    WhileStmt(While),
    Block(Block),
    Break,
}

/// What a run leaves: the result or the error, the frames, and what was printed.
pub type Outcome = (Result<Option<Atom>, RunError>, Seq<Frame>, Seq<Atom>);

/// The frames after one assignment, or the error it fails with.
///
/// An alias binds the value in the innermost frame whatever was there. Any
/// other assignment needs an existing binding of the same variant as the new
/// value, and rebinds it where it was declared; `+=` and `-=` combine the old
/// value with the new one first.
pub open spec fn declare_spec(frames: Seq<Frame>, dec: Declaration) -> Result<Seq<Frame>, RunError> {
    if dec.alias {
        match eval(dec.rhs, frames) {
            Ok(v) => Ok(bind_innermost(frames, dec.lhs@, v)),
            Err(e) => Err(e),
        }
    } else {
        match lookup(frames, dec.lhs@) {
            None => Err(RunError::Uninitialized(dec.lhs)),
            Some(p) => match eval(dec.rhs, frames) {
                Err(e) => Err(e),
                Ok(v) => if !p.same_variant(&v) {
                    Err(RunError::TypeMismatch)
                } else {
                    match dec.plus_or_minus {
                        None => Ok(assign(frames, dec.lhs@, v)),
                        Some(add) => match arith(p, v, add) {
                            Ok(n) => Ok(assign(frames, dec.lhs@, n)),
                            Err(e) => Err(e),
                        },
                    }
                },
            },
        }
    }
}

/// Running one statement with a budget of `fuel` steps; each statement, block
/// and loop iteration takes one.
pub open spec fn exec_stmt(s: Stmt, frames: Seq<Frame>, out: Seq<Atom>, fuel: nat) -> Outcome
    decreases fuel, 0int,
{
    if fuel == 0 {
        (Err(RunError::OutOfFuel), frames, out)
    } else {
        match s {
            Stmt::ExprStmt(e) => match eval(e, frames) {
                Ok(v) => (Ok(Some(v)), frames, out),
                Err(err) => (Err(err), frames, out),
            },
            Stmt::PrintStmt(e) => match eval(e, frames) {
                Ok(v) => (Ok(None), frames, out.push(v)),
                Err(err) => (Err(err), frames, out),
            },
            Stmt::Dec(d) => match declare_spec(frames, d) {
                Ok(f) => (Ok(None), f, out),
                Err(err) => (Err(err), frames, out),
            },
            Stmt::IfStmt(i) => match eval(i.cond, frames) {
                Ok(c) => if c == Atom::Bool(true) {
                    exec_block(i.then_block, frames, out, (fuel - 1) as nat)
                } else {
                    exec_block(i.else_block, frames, out, (fuel - 1) as nat)
                },
                Err(err) => (Err(err), frames, out),
            },
            Stmt::WhileStmt(w) => exec_loop(w, frames, out, None, (fuel - 1) as nat),
            Stmt::Block(b) => exec_block(b, frames, out, (fuel - 1) as nat),
            Stmt::Break => (Ok(Some(Atom::Break)), frames, out),
        }
    }
}

/// Running a block: a fresh innermost frame is pushed, the statements run in
/// it, and the frame is popped whatever the outcome.
pub open spec fn exec_block(b: Block, frames: Seq<Frame>, out: Seq<Atom>, fuel: nat) -> Outcome
    decreases fuel, 0int,
{
    if fuel == 0 {
        (Err(RunError::OutOfFuel), frames, out)
    } else {
        let r = exec_seq(b.statements@, 0, frames.push(Frame::empty()), out, None, (fuel - 1) as nat);
        (r.0, r.1.drop_last(), r.2)
    }
}

/// Running `stmts` from index `i` on, in the current frames. The result is
/// that of the last statement run; an error or the break marker stops the
/// sequence and is its result.
pub open spec fn exec_seq(
    stmts: Seq<Stmt>,
    i: int,
    frames: Seq<Frame>,
    out: Seq<Atom>,
    last: Option<Atom>,
    fuel: nat,
) -> Outcome
    decreases fuel, stmts.len() - i + 1,
{
    if i < 0 || i >= stmts.len() {
        (Ok(last), frames, out)
    } else {
        let r = exec_stmt(stmts[i], frames, out, fuel);
        match r.0 {
            Ok(Some(Atom::Break)) => r,
            Ok(v) => exec_seq(stmts, i + 1, r.1, r.2, v, fuel),
            Err(_) => r,
        }
    }
}

/// Running a loop whose latest body result is `last`: while the condition is
/// `true` the body runs. A break marker from the body ends the loop with no
/// result; otherwise the loop's result is that of the last body run.
pub open spec fn exec_loop(w: While, frames: Seq<Frame>, out: Seq<Atom>, last: Option<Atom>, fuel: nat) -> Outcome
    decreases fuel, 0int,
{
    if fuel == 0 {
        (Err(RunError::OutOfFuel), frames, out)
    } else {
        match eval(w.cond, frames) {
            Err(err) => (Err(err), frames, out),
            Ok(c) => if c != Atom::Bool(true) {
                (Ok(last), frames, out)
            } else {
                let r = exec_block(w.loop_block, frames, out, (fuel - 1) as nat);
                match r.0 {
                    Err(_) => r,
                    Ok(Some(Atom::Break)) => (Ok(None), r.1, r.2),
                    Ok(v) => exec_loop(w, r.1, r.2, v, (fuel - 1) as nat),
                }
            },
        }
    }
}

impl State {
    /// Carries out one assignment. On success the frames are those that
    /// `declare_spec` gives; on failure they are unchanged.
    pub fn declare(&mut self, dec: &Declaration) -> (r: Result<(), RunError>)
        requires
            old(self).wf(),
        ensures
            final(self).wf(),
            final(self).scopes@.len() == old(self).scopes@.len(),
            match r {
                Ok(()) => declare_spec(old(self)@, *dec) == Ok::<Seq<Frame>, RunError>(final(self)@),
                Err(e) => declare_spec(old(self)@, *dec) == Err::<Seq<Frame>, RunError>(e)
                    && final(self)@ == old(self)@,
            },
    {
        if dec.alias {
            let v = eval_expr(&dec.rhs, self)?;
            self.bind_local(dec.lhs.clone(), v);
            return Ok(());
        }
        let prior = match self.get_variable(dec.lhs.as_str()) {
            Some(p) => p,
            None => {
                return Err(RunError::Uninitialized(dec.lhs.clone()));
            },
        };
        let v = eval_expr(&dec.rhs, self)?;
        if !prior.is_same_variant(&v) {
            return Err(RunError::TypeMismatch);
        }
        let new_val = match dec.plus_or_minus {
            None => v,
            Some(add) => combine(prior, &v, add)?,
        };
        self.modify_variable(dec.lhs.as_str(), new_val);
        Ok(())
    }
}

impl Stmt {
    /// Runs the statement against `state`, appending printed values to `out`,
    /// within a budget of `fuel` steps. The result, the frames and the output
    /// are exactly those of `exec_stmt`.
    pub fn execute(&self, state: &mut State, out: &mut Vec<Atom>, fuel: u64) -> (r: Result<Option<Atom>, RunError>)
        requires
            old(state).wf(),
        ensures
            final(state).wf(),
            final(state).scopes@.len() == old(state).scopes@.len(),
            (r, final(state)@, final(out)@) == exec_stmt(*self, old(state)@, old(out)@, fuel as nat),
        decreases fuel, 0int,
    {
        if fuel == 0 {
            return Err(RunError::OutOfFuel);
        }
        match self {
            Stmt::ExprStmt(e) => {
                let v = eval_expr(e, state)?;
                Ok(Some(v))
            },
            Stmt::PrintStmt(e) => {
                let v = eval_expr(e, state)?;
                out.push(v);
                Ok(None)
            },
            Stmt::Dec(d) => {
                state.declare(d)?;
                Ok(None)
            },
            Stmt::IfStmt(i) => {
                let c = eval_expr(&i.cond, state)?;
                if matches!(c, Atom::Bool(true)) {
                    i.then_block.execute(state, out, fuel - 1)
                } else {
                    i.else_block.execute(state, out, fuel - 1)
                }
            },
            Stmt::WhileStmt(w) => w.execute(state, out, fuel - 1),
            Stmt::Block(b) => b.execute(state, out, fuel - 1),
            Stmt::Break => Ok(Some(Atom::Break)),
        }
    }
}

impl While {
    /// Runs the loop until its condition is not `true`, its body yields the
    /// break marker, or the budget runs out; as `exec_loop` says.
    pub fn execute(&self, state: &mut State, out: &mut Vec<Atom>, fuel: u64) -> (r: Result<Option<Atom>, RunError>)
        requires
            old(state).wf(),
        ensures
            final(state).wf(),
            final(state).scopes@.len() == old(state).scopes@.len(),
            (r, final(state)@, final(out)@) == exec_loop(*self, old(state)@, old(out)@, None, fuel as nat),
        decreases fuel, 0int,
    {
        let mut res: Option<Atom> = None;
        let mut left: u64 = fuel;
        loop
            invariant
                state.wf(),
                state.scopes@.len() == old(state).scopes@.len(),
                left <= fuel,
                exec_loop(*self, old(state)@, old(out)@, None, fuel as nat)
                    == exec_loop(*self, state@, out@, res, left as nat),
            decreases left,
        {
            if left == 0 {
                return Err(RunError::OutOfFuel);
            }
            let c = eval_expr(&self.cond, state)?;
            if !matches!(c, Atom::Bool(true)) {
                return Ok(res);
            }
            let r = self.loop_block.execute(state, out, left - 1)?;
            if matches!(r, Some(Atom::Break)) {
                return Ok(None);
            }
            res = r;
            left = left - 1;
        }
    }
}

impl Block {
    /// Runs the statements in order in the current frames, as `exec_seq`
    /// says: the result is that of the last statement run, and an error or
    /// the break marker stops the run.
    pub fn run(&self, state: &mut State, out: &mut Vec<Atom>, fuel: u64) -> (r: Result<Option<Atom>, RunError>)
        requires
            old(state).wf(),
        ensures
            final(state).wf(),
            final(state).scopes@.len() == old(state).scopes@.len(),
            (r, final(state)@, final(out)@) == exec_seq(self.statements@, 0, old(state)@, old(out)@, None, fuel as nat),
        decreases fuel, 1int,
    {
        let mut last: Option<Atom> = None;
        let mut i: usize = 0;
        while i < self.statements.len()
            invariant
                state.wf(),
                state.scopes@.len() == old(state).scopes@.len(),
                i <= self.statements@.len(),
                exec_seq(self.statements@, 0, old(state)@, old(out)@, None, fuel as nat)
                    == exec_seq(self.statements@, i as int, state@, out@, last, fuel as nat),
            decreases self.statements@.len() - i,
        {
            let r = self.statements[i].execute(state, out, fuel)?;
            if matches!(r, Some(Atom::Break)) {
                return Ok(r);
            }
            last = r;
            i = i + 1;
        }
        Ok(last)
    }

    /// Runs the statements in a fresh innermost frame that is popped again
    /// whatever the outcome, as `exec_block` says.
    pub fn execute(&self, state: &mut State, out: &mut Vec<Atom>, fuel: u64) -> (r: Result<Option<Atom>, RunError>)
        requires
            old(state).wf(),
        ensures
            final(state).wf(),
            final(state).scopes@.len() == old(state).scopes@.len(),
            (r, final(state)@, final(out)@) == exec_block(*self, old(state)@, old(out)@, fuel as nat),
        decreases fuel, 0int,
    {
        if fuel == 0 {
            return Err(RunError::OutOfFuel);
        }
        let ghost pre = state.scopes@;
        state.scopes.push(Scope::new());
        proof {
            assert(state@ =~= old(state)@.push(Frame::empty()));
            assert forall|j: int| 0 <= j < state.scopes@.len() implies #[trigger] state.scopes@[j].wf() by {
                if j < pre.len() {
                    assert(state.scopes@[j] == pre[j]);
                }
            }
        }
        let r = self.run(state, out, fuel - 1);
        let ghost mid = state.scopes@;
        state.scopes.pop();
        proof {
            assert(state@ =~= mid.map_values(|s: Scope| s@).drop_last());
            assert forall|j: int| 0 <= j < state.scopes@.len() implies #[trigger] state.scopes@[j].wf() by {
                assert(state.scopes@[j] == mid[j]);
            }
        }
        r
    }
}

} // verus!
