use vstd::prelude::*;

use crate::atom::Atom;
use crate::expr::{Op, RunError, S};
use crate::statement::{Block, Declaration, Stmt};

verus! {

/// One instruction of the generated stack-machine listing.
#[derive(Debug, Clone, Copy, PartialEq, Eq, Structural)]
pub enum Instr {
    Push(isize),
    Load(usize),
    Store(usize),
    Pop,
    Add,
    Sub,
    Lt,
    Le,
    Gt,
    Ge,
    Eq,
    Ne,
    Print,
    PrintC,
    /// Jump to the label when the top of the stack is false.
    JumpIfFalse(usize),
    Jump(usize),
    Label(usize),
    /// An empty separator line.
    Blank,
}

/// One compile-time frame: names and their slots within the frame.
pub type SlotFrame = Seq<(String, usize)>;

/// The compile-time environment as a value: frames, label counter and the end
/// label of the innermost loop being compiled.
pub type ScopeView = (Seq<SlotFrame>, usize, Option<usize>);

/// The slot of `name` in one frame; a later entry wins.
pub open spec fn slot_in(f: SlotFrame, name: Seq<char>) -> Option<usize>
    decreases f.len(),
{
    if f.len() == 0 {
        None
    } else if f.last().0@ == name {
        Some(f.last().1)
    } else {
        slot_in(f.drop_last(), name)
    }
}

/// The number of slots of all frames together.
pub open spec fn total(frames: Seq<SlotFrame>) -> int
    decreases frames.len(),
{
    if frames.len() == 0 {
        0
    } else {
        total(frames.drop_last()) + frames.last().len()
    }
}

/// The absolute slot of `name`: its slot in the innermost frame that has it,
/// offset by the sizes of all frames below that one.
pub open spec fn resolve(frames: Seq<SlotFrame>, name: Seq<char>) -> Option<int>
    decreases frames.len(),
{
    if frames.len() == 0 {
        None
    } else {
        match slot_in(frames.last(), name) {
            Some(s) => Some(total(frames.drop_last()) + s),
            None => resolve(frames.drop_last(), name),
        }
    }
}

/// Slots are dense, in order of first declaration, and names are unique.
pub open spec fn slot_frame_wf(f: SlotFrame) -> bool {
    &&& forall|j: int| 0 <= j < f.len() ==> (#[trigger] f[j]).1 == j
    &&& forall|i: int, j: int| 0 <= i < j < f.len() ==> f[i].0@ != f[j].0@
}

/// The instructions that push the value of an atom. An unresolvable
/// identifier, and a value that has no stack form, emit nothing.
pub open spec fn gen_atom(a: Atom, frames: Seq<SlotFrame>) -> Seq<Instr> {
    match a {
        Atom::Int(i) => seq![Instr::Push(i)],
        Atom::Bool(b) => seq![Instr::Push(if b { 1 } else { 0 })],
        Atom::Identifier(n) => match resolve(frames, n@) {
            Some(g) => seq![Instr::Load(g as usize)],
            None => seq![],
        },
        _ => seq![],
    }
}

/// The instruction that applies a binary operator to the two topmost values.
pub open spec fn op_instr(op: Op) -> Instr {
    match op {
        Op::Add => Instr::Add,
        Op::Sub => Instr::Sub,
        Op::Lt => Instr::Lt,
        Op::Le => Instr::Le,
        Op::Gt => Instr::Gt,
        Op::Ge => Instr::Ge,
        Op::Eq => Instr::Eq,
        Op::Ne => Instr::Ne,
    }
}

/// The instructions that push the value of an expression: operands left to
/// right, then the operator.
pub open spec fn gen_expr(e: S, frames: Seq<SlotFrame>) -> Seq<Instr>
    decreases e,
{
    match e {
        S::Atom(a) => gen_atom(a, frames),
        S::Binary(op, l, r) => gen_expr(*l, frames) + gen_expr(*r, frames) + seq![op_instr(op)],
    }
}

/// Puts `pre` in front of the instructions of a successful compilation.
pub open spec fn prepend(pre: Seq<Instr>, o: Option<(Seq<Instr>, ScopeView)>) -> Option<(Seq<Instr>, ScopeView)> {
    match o {
        Some(p) => Some((pre + p.0, p.1)),
        None => None,
    }
}

/// Compiling one assignment. A name that resolves is stored into its slot
/// (after combining with the old value for `+=` and `-=`); a new name gets
/// the next slot of the innermost frame, and the value of the right-hand side
/// is left on the stack as that slot. `None` when no slot index is left.
pub open spec fn gen_dec(d: Declaration, sc: ScopeView) -> Option<(Seq<Instr>, ScopeView)> {
    match resolve(sc.0, d.lhs@) {
        Some(g) => match d.plus_or_minus {
            Some(add) if !d.alias => Some((
                seq![Instr::Load(g as usize)] + gen_expr(d.rhs, sc.0) + seq![
                    if add { Instr::Add } else { Instr::Sub },
                    Instr::Store(g as usize),
                    Instr::Pop,
                ],
                sc,
            )),
            _ => Some((gen_expr(d.rhs, sc.0) + seq![Instr::Store(g as usize), Instr::Pop], sc)),
        },
        None => if total(sc.0) < usize::MAX {
            let last = sc.0.last();
            let frames = sc.0.update(sc.0.len() - 1, last.push((d.lhs, last.len() as usize)));
            Some((gen_expr(d.rhs, frames), (frames, sc.1, sc.2)))
        } else {
            None
        },
    }
}

/// Compiling one statement, framed by blank lines. `None` when the label
/// counter or the slot space would overflow.
pub open spec fn gen_stmt(s: Stmt, sc: ScopeView) -> Option<(Seq<Instr>, ScopeView)>
    decreases s, 0int,
{
    let body: Option<(Seq<Instr>, ScopeView)> = match s {
        Stmt::ExprStmt(e) => Some((gen_expr(e, sc.0), sc)),
        Stmt::PrintStmt(e) => Some((
            gen_expr(e, sc.0) + seq![Instr::Print, Instr::Push(10), Instr::PrintC, Instr::Pop, Instr::Pop],
            sc,
        )),
        Stmt::Dec(d) => gen_dec(d, sc),
        Stmt::IfStmt(i) => if sc.1 + 2 > usize::MAX {
            None
        } else {
            let l = sc.1;
            match gen_seq(i.then_block, 0, (sc.0, (l + 2) as usize, sc.2)) {
                None => None,
                Some(t) => match gen_seq(i.else_block, 0, t.1) {
                    None => None,
                    Some(e) => Some((
                        gen_expr(i.cond, sc.0) + seq![Instr::JumpIfFalse(l), Instr::Pop] + t.0 + seq![
                            Instr::Jump((l + 1) as usize),
                            Instr::Label(l),
                        ] + e.0 + seq![Instr::Label((l + 1) as usize)],
                        e.1,
                    )),
                },
            }
        },
        Stmt::WhileStmt(w) => if sc.1 + 2 > usize::MAX {
            None
        } else {
            let l = sc.1;
            match gen_seq(w.loop_block, 0, (sc.0, (l + 2) as usize, Some((l + 1) as usize))) {
                None => None,
                Some(b) => Some((
                    seq![Instr::Label(l)] + gen_expr(w.cond, sc.0) + seq![Instr::JumpIfFalse((l + 1) as usize)]
                        + b.0 + seq![Instr::Jump(l), Instr::Label((l + 1) as usize)],
                    (b.1.0, b.1.1, sc.2),
                )),
            }
        },
        Stmt::Block(b) => gen_seq(b, 0, sc),
        Stmt::Break => match sc.2 {
            Some(end) => Some((seq![Instr::Jump(end)], sc)),
            None => Some((seq![], sc)),
        },
    };
    match body {
        Some(p) => Some((seq![Instr::Blank] + p.0 + seq![Instr::Blank], p.1)),
        None => None,
    }
}

/// Compiling the statements of a block from index `i` on, in order.
pub open spec fn gen_seq(b: Block, i: int, sc: ScopeView) -> Option<(Seq<Instr>, ScopeView)>
    decreases b, b.statements@.len() - i + 1,
{
    if i < 0 || i >= b.statements@.len() {
        Some((seq![], sc))
    } else {
        match gen_stmt(b.statements@[i], sc) {
            None => None,
            Some(p) => prepend(p.0, gen_seq(b, i + 1, p.1)),
        }
    }
}

proof fn lemma_total_prefix(frames: Seq<SlotFrame>, i: int)
    requires
        0 <= i <= frames.len(),
    ensures
        0 <= total(frames.take(i)) <= total(frames),
    decreases frames.len(),
{
    if i < frames.len() {
        lemma_total_prefix(frames.drop_last(), i);
        assert(frames.drop_last().take(i) == frames.take(i));
    } else {
        assert(frames.take(i) == frames);
    }
    lemma_total_nonneg(frames.take(i));
}

pub(crate) proof fn lemma_total_nonneg(frames: Seq<SlotFrame>)
    ensures
        total(frames) >= 0,
    decreases frames.len(),
{
    if frames.len() > 0 {
        lemma_total_nonneg(frames.drop_last());
    }
}

pub(crate) proof fn lemma_slot_in(f: SlotFrame, name: Seq<char>)
    requires
        slot_frame_wf(f),
    ensures
        match slot_in(f, name) {
            Some(s) => s < f.len(),
            None => forall|j: int| 0 <= j < f.len() ==> (#[trigger] f[j]).0@ != name,
        },
    decreases f.len(),
{
    if f.len() > 0 {
        let g = f.drop_last();
        assert forall|j: int| 0 <= j < g.len() implies (#[trigger] g[j]).1 == j by {
            assert(g[j] == f[j]);
        }
        lemma_slot_in(g, name);
        if slot_in(f, name) is None {
            assert forall|j: int| 0 <= j < f.len() implies (#[trigger] f[j]).0@ != name by {
                if j < f.len() - 1 {
                    assert(g[j] == f[j]);
                }
            }
        }
    }
}

/// The compile-time environment. Statements declare into the innermost frame.
#[derive(Debug)]
pub struct CompileScope {
    pub vars: Vec<Vec<(String, usize)>>,
    pub label_count: usize,
    /// The end label of the innermost loop being compiled, where `break` jumps.
    pub loop_end: Option<usize>,
}

impl View for CompileScope {
    type V = ScopeView;

    open spec fn view(&self) -> ScopeView {
        (self.frames(), self.label_count, self.loop_end)
    }
}

impl CompileScope {
    /// The frames as values.
    pub open spec fn frames(&self) -> Seq<SlotFrame> {
        self.vars@.map_values(|f: Vec<(String, usize)>| f@)
    }

    /// At least one frame, each well formed, and every slot index fits.
    pub open spec fn wf(&self) -> bool {
        &&& self.vars@.len() > 0
        &&& forall|i: int| 0 <= i < self.vars@.len() ==> slot_frame_wf(#[trigger] self.vars@[i]@)
        &&& total(self.frames()) <= usize::MAX
    }

    /// One empty frame, no labels used, outside any loop.
    pub fn new() -> (r: CompileScope)
        ensures
            r.wf(),
            r@ == (seq![Seq::<(String, usize)>::empty()], 0usize, None::<usize>),
    {
        let mut vars: Vec<Vec<(String, usize)>> = Vec::new();
        vars.push(Vec::new());
        let r = CompileScope { vars, label_count: 0, loop_end: None };
        proof {
            assert(r.frames() =~= seq![Seq::<(String, usize)>::empty()]);
            assert(r.frames().drop_last() =~= Seq::<SlotFrame>::empty());
            assert(r.frames().last().len() == 0);
            assert(total(r.frames().drop_last()) == 0);
            assert(total(r.frames()) == 0);
            assert(slot_frame_wf(r.vars@[0]@));
        }
        r
    }
    /// Whether the scope satisfies `wf`.
    pub fn is_well_formed(&self) -> (r: bool)
        ensures
            r == self.wf(),
    {
        if self.vars.len() == 0 {
            return false;
        }
        let mut acc: usize = 0;
        let mut k: usize = 0;
        while k < self.vars.len()
            invariant
                k <= self.vars@.len(),
                self.vars@.len() > 0,
                acc == total(self.frames().take(k as int)),
                forall|i: int| 0 <= i < k ==> slot_frame_wf(#[trigger] self.vars@[i]@),
            decreases self.vars@.len() - k,
        {
            let f = &self.vars[k];
            let n = f.len();
            let mut j: usize = 0;
            while j < n
                invariant
                    k < self.vars@.len(),
                    *f == self.vars@[k as int],
                    n == f@.len(),
                    j <= n,
                    forall|b: int| 0 <= b < j ==> (#[trigger] f@[b]).1 == b,
                    forall|a: int, b: int| 0 <= a < b < j ==> f@[a].0@ != f@[b].0@,
                decreases n - j,
            {
                if f[j].1 != j {
                    assert(!slot_frame_wf(self.vars@[k as int]@));
                    return false;
                }
                let mut i: usize = 0;
                while i < j
                    invariant
                        k < self.vars@.len(),
                        *f == self.vars@[k as int],
                        n == f@.len(),
                        i <= j < n,
                        forall|a: int| 0 <= a < i ==> f@[a].0@ != f@[j as int].0@,
                    decreases j - i,
                {
                    if f[i].0 == f[j].0 {
                        assert(!slot_frame_wf(self.vars@[k as int]@));
                        return false;
                    }
                    i = i + 1;
                }
                j = j + 1;
            }
            proof {
                assert(self.frames().take(k + 1).drop_last() == self.frames().take(k as int));
                assert(self.frames().take(k + 1).last() == self.vars@[k as int]@);
                lemma_total_prefix(self.frames(), k + 1);
                lemma_total_prefix(self.frames(), k as int);
            }
            if acc > usize::MAX - n {
                proof {
                    lemma_total_prefix(self.frames(), k + 1);
                }
                return false;
            }
            acc = acc + n;
            k = k + 1;
        }
        assert(self.frames().take(k as int) == self.frames());
        true
    }

    /// The slot of `name` in one frame.
    fn slot_of(f: &Vec<(String, usize)>, name: &String) -> (r: Option<usize>)
        ensures
            r == slot_in(f@, name@),
    {
        let mut i: usize = f.len();
        assert(f@.take(i as int) == f@);
        while i > 0
            invariant
                i <= f@.len(),
                slot_in(f@, name@) == slot_in(f@.take(i as int), name@),
            decreases i,
        {
            assert(f@.take(i as int).drop_last() == f@.take(i - 1));
            assert(f@.take(i as int).last() == f@[i - 1]);
            if f[i - 1].0 == *name {
                return Some(f[i - 1].1);
            }
            i = i - 1;
        }
        assert(f@.take(0) == Seq::<(String, usize)>::empty());
        None
    }

    /// The number of slots of all frames together.
    fn total_size(&self) -> (r: usize)
        requires
            self.wf(),
        ensures
            r == total(self.frames()),
    {
        let mut acc: usize = 0;
        let mut i: usize = 0;
        while i < self.vars.len()
            invariant
                self.wf(),
                i <= self.vars@.len(),
                acc == total(self.frames().take(i as int)),
            decreases self.vars@.len() - i,
        {
            proof {
                assert(self.frames().take(i + 1).drop_last() == self.frames().take(i as int));
                assert(self.frames().take(i + 1).last() == self.vars@[i as int]@);
                lemma_total_prefix(self.frames(), i + 1);
            }
            acc = acc + self.vars[i].len();
            i = i + 1;
        }
        assert(self.frames().take(i as int) == self.frames());
        acc
    }

    /// The absolute slot of `name`, found innermost frame first.
    pub fn resolve_slot(&self, name: &String) -> (r: Option<usize>)
        requires
            self.wf(),
        ensures
            match r {
                Some(g) => resolve(self.frames(), name@) == Some(g as int),
                None => resolve(self.frames(), name@) is None,
            },
    {
        let mut full = self.total_size();
        let mut i: usize = self.vars.len();
        assert(self.frames().take(i as int) == self.frames());
        while i > 0
            invariant
                self.wf(),
                i <= self.vars@.len(),
                full == total(self.frames().take(i as int)),
                resolve(self.frames(), name@) == resolve(self.frames().take(i as int), name@),
            decreases i,
        {
            let ghost pre = self.frames().take(i as int);
            proof {
                assert(pre.drop_last() == self.frames().take(i - 1));
                assert(pre.last() == self.vars@[i - 1]@);
                lemma_slot_in(self.vars@[i - 1]@, name@);
                lemma_total_nonneg(pre.drop_last());
            }
            match Self::slot_of(&self.vars[i - 1], name) {
                Some(s) => {
                    return Some(full - self.vars[i - 1].len() + s);
                },
                None => {
                    full = full - self.vars[i - 1].len();
                },
            }
            i = i - 1;
        }
        None
    }
}

impl Atom {
    /// Emits the instructions that push this atom's value.
    pub fn compile(&self, scope: &CompileScope, out: &mut Vec<Instr>)
        requires
            scope.wf(),
        ensures
            final(out)@ == old(out)@ + gen_atom(*self, scope.frames()),
    {
        match self {
            Atom::Int(i) => out.push(Instr::Push(*i)),
            Atom::Bool(b) => out.push(Instr::Push(if *b { 1 } else { 0 })),
            Atom::Identifier(n) => match scope.resolve_slot(n) {
                Some(g) => out.push(Instr::Load(g)),
                None => {},
            },
            _ => {},
        }
        assert(final(out)@ =~= old(out)@ + gen_atom(*self, scope.frames()));
    }
}

impl S {
    /// Emits the instructions that push this expression's value.
    pub fn compile(&self, scope: &CompileScope, out: &mut Vec<Instr>)
        requires
            scope.wf(),
        ensures
            final(out)@ == old(out)@ + gen_expr(*self, scope.frames()),
        decreases self,
    {
        match self {
            S::Atom(a) => a.compile(scope, out),
            S::Binary(op, l, r) => {
                l.compile(scope, out);
                r.compile(scope, out);
                let i = match op {
                    Op::Add => Instr::Add,
                    Op::Sub => Instr::Sub,
                    Op::Lt => Instr::Lt,
                    Op::Le => Instr::Le,
                    Op::Gt => Instr::Gt,
                    Op::Ge => Instr::Ge,
                    Op::Eq => Instr::Eq,
                    Op::Ne => Instr::Ne,
                };
                out.push(i);
                assert(final(out)@ =~= old(out)@ + gen_expr(*self, scope.frames()));
            },
        }
    }
}

impl Declaration {
    /// Emits the instructions of this assignment, as `gen_dec` says.
    pub fn compile(&self, scope: &mut CompileScope, out: &mut Vec<Instr>) -> (r: Result<(), RunError>)
        requires
            old(scope).wf(),
        ensures
            final(scope).wf(),
            match gen_dec(*self, old(scope)@) {
                Some(p) => r is Ok && final(out)@ == old(out)@ + p.0 && final(scope)@ == p.1,
                None => r is Err,
            },
    {
        match scope.resolve_slot(&self.lhs) {
            Some(g) => {
                match self.plus_or_minus {
                    Some(add) if !self.alias => {
                        out.push(Instr::Load(g));
                        self.rhs.compile(scope, out);
                        out.push(if add { Instr::Add } else { Instr::Sub });
                        out.push(Instr::Store(g));
                        out.push(Instr::Pop);
                    },
                    _ => {
                        self.rhs.compile(scope, out);
                        out.push(Instr::Store(g));
                        out.push(Instr::Pop);
                    },
                }
                assert(final(out)@ =~= old(out)@ + gen_dec(*self, old(scope)@).unwrap().0);
                Ok(())
            },
            None => {
                let t = scope.total_size();
                if t == usize::MAX {
                    return Err(RunError::Overflow);
                }
                let k = scope.vars.len() - 1;
                let n = scope.vars[k].len();
                let ghost pre = scope.vars@;
                let ghost fr = scope.frames();
                proof {
                    assert(fr.last() == pre[k as int]@);
                    lemma_slot_in(pre[k as int]@, self.lhs@);
                }
                scope.vars[k].push((self.lhs.clone(), n));
                proof {
                    let nf = fr.update(k as int, fr.last().push((self.lhs, n)));
                    assert(scope.frames() =~= nf);
                    assert(nf.drop_last() == fr.drop_last());
                    assert forall|i: int| 0 <= i < scope.vars@.len() implies slot_frame_wf(#[trigger] scope.vars@[i]@) by {
                        if i != k {
                            assert(scope.vars@[i] == pre[i]);
                        } else {
                            let f = scope.vars@[i]@;
                            assert(f == pre[i]@.push((self.lhs, n)));
                            assert forall|j: int| 0 <= j < f.len() implies (#[trigger] f[j]).1 == j by {
                                if j < n {
                                    assert(f[j] == pre[i]@[j]);
                                }
                            }
                            assert forall|a: int, b: int| 0 <= a < b < f.len() implies f[a].0@ != f[b].0@ by {
                                if b < n {
                                    assert(f[a] == pre[i]@[a]);
                                    assert(f[b] == pre[i]@[b]);
                                } else {
                                    assert(f[a] == pre[i]@[a]);
                                    assert(fr.last()[a] == pre[i]@[a]);
                                }
                            }
                        }
                    }
                }
                self.rhs.compile(scope, out);
                Ok(())
            },
        }
    }
}

impl Stmt {
    /// Emits the instructions of this statement, framed by blank lines, as
    /// `gen_stmt` says. An `if` takes the next two labels for its else branch
    /// and its end; a loop takes them for its top and its end, and a `break`
    /// inside it jumps to that end.
    #[verifier::rlimit(50)]
    #[verifier::spinoff_prover]
    pub fn compile(&self, scope: &mut CompileScope, out: &mut Vec<Instr>) -> (r: Result<(), RunError>)
        requires
            old(scope).wf(),
        ensures
            final(scope).wf(),
            match gen_stmt(*self, old(scope)@) {
                Some(p) => r is Ok && final(out)@ == old(out)@ + p.0 && final(scope)@ == p.1,
                None => r is Err,
            },
        decreases self, 0int,
    {
        let ghost sc = scope@;
        let ghost start = out@;
        out.push(Instr::Blank);
        match self {
            Stmt::ExprStmt(e) => {
                e.compile(scope, out);
            },
            Stmt::PrintStmt(e) => {
                e.compile(scope, out);
                out.push(Instr::Print);
                out.push(Instr::Push(10));
                out.push(Instr::PrintC);
                out.push(Instr::Pop);
                out.push(Instr::Pop);
            },
            Stmt::Dec(d) => {
                d.compile(scope, out)?;
            },
            Stmt::IfStmt(i) => {
                if scope.label_count > usize::MAX - 2 {
                    return Err(RunError::Overflow);
                }
                let l = scope.label_count;
                scope.label_count = l + 2;
                i.cond.compile(scope, out);
                out.push(Instr::JumpIfFalse(l));
                out.push(Instr::Pop);
                i.then_block.compile(scope, out)?;
                out.push(Instr::Jump(l + 1));
                out.push(Instr::Label(l));
                i.else_block.compile(scope, out)?;
                out.push(Instr::Label(l + 1));
            },
            Stmt::WhileStmt(w) => {
                if scope.label_count > usize::MAX - 2 {
                    return Err(RunError::Overflow);
                }
                let l = scope.label_count;
                let outer = scope.loop_end;
                scope.label_count = l + 2;
                scope.loop_end = Some(l + 1);
                out.push(Instr::Label(l));
                w.cond.compile(scope, out);
                out.push(Instr::JumpIfFalse(l + 1));
                w.loop_block.compile(scope, out)?;
                out.push(Instr::Jump(l));
                out.push(Instr::Label(l + 1));
                scope.loop_end = outer;
            },
            Stmt::Block(b) => {
                b.compile(scope, out)?;
            },
            Stmt::Break => {
                match scope.loop_end {
                    Some(end) => out.push(Instr::Jump(end)),
                    None => {},
                }
            },
        }
        out.push(Instr::Blank);
        assert(final(out)@ =~= start + gen_stmt(*self, sc).unwrap().0);
        Ok(())
    }
}

impl Block {
    /// Emits the instructions of the statements in order, as `gen_seq` says.
    pub fn compile(&self, scope: &mut CompileScope, out: &mut Vec<Instr>) -> (r: Result<(), RunError>)
        requires
            old(scope).wf(),
        ensures
            final(scope).wf(),
            match gen_seq(*self, 0, old(scope)@) {
                Some(p) => r is Ok && final(out)@ == old(out)@ + p.0 && final(scope)@ == p.1,
                None => r is Err,
            },
        decreases self, 1int,
    {
        let ghost done: Seq<Instr> = seq![];
        let mut i: usize = 0;
        while i < self.statements.len()
            invariant
                scope.wf(),
                i <= self.statements@.len(),
                out@ == old(out)@ + done,
                gen_seq(*self, 0, old(scope)@) == prepend(done, gen_seq(*self, i as int, scope@)),
            decreases self.statements@.len() - i,
        {
            let ghost sc = scope@;
            let ghost before = out@;
            self.statements[i].compile(scope, out)?;
            proof {
                let p = gen_stmt(self.statements@[i as int], sc).unwrap();
                let rest = gen_seq(*self, i + 1, p.1);
                assert(out@ =~= old(out)@ + (done + p.0));
                match rest {
                    Some(q) => {
                        assert(done + (p.0 + q.0) =~= (done + p.0) + q.0);
                    },
                    None => {},
                }
                done = done + p.0;
            }
            i = i + 1;
        }
        assert(done + seq![] =~= done);
        Ok(())
    }
}

impl Default for CompileScope {
    /// One empty frame, no labels used, outside any loop.
    fn default() -> (r: CompileScope)
        ensures
            r.wf(),
            r@ == (seq![Seq::<(String, usize)>::empty()], 0usize, None::<usize>),
    {
        CompileScope::new()
    }
}

} // verus!
