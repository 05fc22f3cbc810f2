use vstd::prelude::*;

use crate::atom::Atom;
use crate::compile::{gen_atom, gen_dec, gen_expr, resolve, slot_frame_wf, slot_in, total, lemma_slot_in, lemma_total_nonneg, gen_seq, gen_stmt, Instr, ScopeView, SlotFrame};
use crate::expr::{eval, RunError};
use crate::state::{assign, lemma_assign_above, lemma_lookup_assign, lookup, Frame};
use crate::expr::S;
use crate::statement::{declare_spec, exec_block, exec_loop, exec_seq, exec_stmt, Block, Declaration, Stmt, While};

verus! {

/// An alias assignment made in a freshly opened inner frame shadows the outer
/// binding: inside, the name reads as the new value; once the inner frame is
/// closed again, the outer frames are exactly as before.
pub proof fn shadow_resolution(frames: Seq<Frame>, dec: Declaration, v: Atom)
    requires
        dec.alias,
        eval(dec.rhs, frames.push(Frame::empty())) == Ok::<Atom, RunError>(v),
    ensures
        declare_spec(frames.push(Frame::empty()), dec) is Ok,
        lookup(declare_spec(frames.push(Frame::empty()), dec).unwrap(), dec.lhs@) == Some(v),
        declare_spec(frames.push(Frame::empty()), dec).unwrap().drop_last() == frames,
{
    let inner = frames.push(Frame::empty());
    let after = declare_spec(inner, dec).unwrap();
    assert(after.drop_last() =~= frames);
}

/// A plain or compound assignment to a name updates the binding in the
/// innermost frame that owns it, and leaves every other frame, and the number
/// of frames, as they were.
pub proof fn mutation_reaches_origin(frames: Seq<Frame>, dec: Declaration, i: int)
    requires
        !dec.alias,
        0 <= i < frames.len(),
        frames[i].contains_key(dec.lhs@),
        forall|j: int| i < j < frames.len() ==> !(#[trigger] frames[j]).contains_key(dec.lhs@),
        declare_spec(frames, dec) is Ok,
    ensures
        ({
            let after = declare_spec(frames, dec).unwrap();
            &&& after.len() == frames.len()
            &&& forall|j: int| 0 <= j < frames.len() && j != i ==> after[j] == frames[j]
            &&& after[i] == frames[i].insert(dec.lhs@, after[i][dec.lhs@])
        }),
{
    let after = declare_spec(frames, dec).unwrap();
    let v = choose|v: Atom| after == assign(frames, dec.lhs@, v);
    assert(after == assign(frames, dec.lhs@, v));
    lemma_assign_above(frames, i, dec.lhs@, v);
    assert(frames.update(i, frames[i].insert(dec.lhs@, v))[i] == frames[i].insert(dec.lhs@, v));
}

/// A string assigned over an integer binding without alias fails with a type
/// mismatch; with alias the same assignment succeeds.
pub proof fn type_guard(frames: Seq<Frame>, dec: Declaration, a: isize, s: String)
    requires
        frames.len() > 0,
        lookup(frames, dec.lhs@) == Some(Atom::Int(a)),
        eval(dec.rhs, frames) == Ok::<Atom, RunError>(Atom::Str(s)),
    ensures
        !dec.alias ==> declare_spec(frames, dec) == Err::<Seq<Frame>, RunError>(RunError::TypeMismatch),
        dec.alias ==> declare_spec(frames, dec) is Ok,
{
}

/// `x += b` on a binding holding `a` leaves `a + b` in it, and `x -= b`
/// leaves `a - b`, when the result fits in `isize`.
pub proof fn compound_arithmetic(frames: Seq<Frame>, dec: Declaration, a: isize, b: isize, add: bool)
    requires
        !dec.alias,
        dec.plus_or_minus == Some(add),
        lookup(frames, dec.lhs@) == Some(Atom::Int(a)),
        eval(dec.rhs, frames) == Ok::<Atom, RunError>(Atom::Int(b)),
        isize::MIN <= (if add { a + b } else { a - b }) <= isize::MAX,
    ensures
        declare_spec(frames, dec) is Ok,
        lookup(declare_spec(frames, dec).unwrap(), dec.lhs@) == Some(
            Atom::Int((if add { a + b } else { a - b }) as isize),
        ),
{
    let n = Atom::Int((if add { a + b } else { a - b }) as isize);
    lemma_lookup_assign(frames, dec.lhs@, n);
}

/// The break marker never leaves a loop: whatever the body does, a loop's
/// result is an error, no value, or a body result other than the marker.
pub proof fn break_contained(w: While, frames: Seq<Frame>, out: Seq<Atom>, last: Option<Atom>, fuel: nat)
    requires
        last != Some(Atom::Break),
    ensures
        exec_loop(w, frames, out, last, fuel).0 != Ok::<Option<Atom>, RunError>(Some(Atom::Break)),
    decreases fuel,
{
    if fuel > 0 {
        if let Ok(c) = eval(w.cond, frames) {
            if c == Atom::Bool(true) {
                let r = exec_block(w.loop_block, frames, out, (fuel - 1) as nat);
                if let Ok(v) = r.0 {
                    if v != Some(Atom::Break) {
                        break_contained(w, r.1, r.2, v, (fuel - 1) as nat);
                    }
                }
            }
        }
    }
}

/// A loop statement whose condition is not `true` at the start runs its body
/// never and has no result.
pub proof fn loop_never_entered(w: While, frames: Seq<Frame>, out: Seq<Atom>, fuel: nat)
    requires
        fuel >= 2,
        eval(w.cond, frames) is Ok,
        eval(w.cond, frames).unwrap() != Atom::Bool(true),
    ensures
        exec_stmt(Stmt::WhileStmt(w), frames, out, fuel) == (Ok::<Option<Atom>, RunError>(None), frames, out),
{
}

/// The label an instruction defines, if it is a label.
pub open spec fn label_of(x: Instr) -> Option<int> {
    match x {
        Instr::Label(l) => Some(l as int),
        _ => None,
    }
}

/// The labels defined in a listing.
pub open spec fn label_set(code: Seq<Instr>) -> Set<int> {
    Set::new(|x: int| exists|i: int| 0 <= i < code.len() && label_of(code[i]) == Some(x))
}

/// No label is defined twice in a listing.
pub open spec fn labels_distinct(code: Seq<Instr>) -> bool {
    forall|i: int, j: int|
        0 <= i < j < code.len() && (#[trigger] label_of(code[i])) is Some ==> label_of(code[i]) != #[trigger] label_of(code[j])
}

/// Every label of the listing lies in `[lo, hi)`.
pub open spec fn labels_within(code: Seq<Instr>, lo: int, hi: int) -> bool {
    forall|x: int| label_set(code).contains(x) ==> lo <= x < hi
}

proof fn lemma_concat(a: Seq<Instr>, b: Seq<Instr>)
    ensures
        label_set(a + b) == label_set(a).union(label_set(b)),
        labels_distinct(a) && labels_distinct(b) && label_set(a).disjoint(label_set(b)) ==> labels_distinct(a + b),
{
    let c = a + b;
    assert forall|x: int| label_set(c).contains(x) <==> label_set(a).union(label_set(b)).contains(x) by {
        if label_set(c).contains(x) {
            let i = choose|i: int| 0 <= i < c.len() && label_of(c[i]) == Some(x);
            if i < a.len() {
                assert(a[i] == c[i]);
            } else {
                assert(b[i - a.len()] == c[i]);
            }
        }
        if label_set(a).contains(x) {
            let i = choose|i: int| 0 <= i < a.len() && label_of(a[i]) == Some(x);
            assert(c[i] == a[i]);
        }
        if label_set(b).contains(x) {
            let i = choose|i: int| 0 <= i < b.len() && label_of(b[i]) == Some(x);
            assert(c[i + a.len()] == b[i]);
        }
    }
    assert(label_set(c) =~= label_set(a).union(label_set(b)));
    if labels_distinct(a) && labels_distinct(b) && label_set(a).disjoint(label_set(b)) {
        assert forall|i: int, j: int|
            0 <= i < j < c.len() && (#[trigger] label_of(c[i])) is Some implies label_of(c[i]) != #[trigger] label_of(c[j]) by {
            if j < a.len() {
                assert(c[i] == a[i] && c[j] == a[j]);
            } else if i >= a.len() {
                assert(c[i] == b[i - a.len()] && c[j] == b[j - a.len()]);
            } else {
                assert(c[i] == a[i] && c[j] == b[j - a.len()]);
                let x = label_of(c[i]).unwrap();
                assert(label_set(a).contains(x));
                if label_of(c[j]) == Some(x) {
                    assert(label_set(b).contains(x));
                }
            }
        }
    }
}

proof fn lemma_no_labels(code: Seq<Instr>)
    requires
        forall|i: int| 0 <= i < code.len() ==> label_of(#[trigger] code[i]) is None,
    ensures
        label_set(code) == Set::<int>::empty(),
        labels_distinct(code),
{
    assert(label_set(code) =~= Set::<int>::empty());
}

proof fn lemma_one_label(l: usize)
    ensures
        label_set(seq![Instr::Label(l)]) == set![l as int],
        labels_distinct(seq![Instr::Label(l)]),
{
    let c = seq![Instr::Label(l)];
    assert(label_of(c[0]) == Some(l as int));
    assert(label_set(c) =~= set![l as int]);
}

proof fn lemma_expr_no_labels(e: S, frames: Seq<SlotFrame>)
    ensures
        label_set(gen_expr(e, frames)) == Set::<int>::empty(),
        labels_distinct(gen_expr(e, frames)),
    decreases e,
{
    match e {
        S::Atom(a) => {
            let c = gen_atom(a, frames);
            assert forall|i: int| 0 <= i < c.len() implies label_of(#[trigger] c[i]) is None by {
                assert(c.len() <= 1);
            }
            lemma_no_labels(c);
        },
        S::Binary(op, l, r) => {
            lemma_expr_no_labels(*l, frames);
            lemma_expr_no_labels(*r, frames);
            let t = seq![crate::compile::op_instr(op)];
            assert(label_of(t[0]) is None);
            lemma_no_labels(t);
            lemma_concat(gen_expr(*l, frames), gen_expr(*r, frames));
            lemma_concat(gen_expr(*l, frames) + gen_expr(*r, frames), t);
        },
    }
}

proof fn lemma_plain(a: Instr, b: Instr)
    requires
        label_of(a) is None,
        label_of(b) is None,
    ensures
        label_set(seq![a, b]) == Set::<int>::empty(),
        labels_distinct(seq![a, b]),
{
    let c = seq![a, b];
    assert(c[0] == a && c[1] == b);
    lemma_no_labels(c);
}

proof fn lemma_dec_labels(d: Declaration, sc: ScopeView)
    requires
        gen_dec(d, sc) is Some,
    ensures
        label_set(gen_dec(d, sc).unwrap().0) == Set::<int>::empty(),
        labels_distinct(gen_dec(d, sc).unwrap().0),
{
    let (code, after) = gen_dec(d, sc).unwrap();
    match resolve(sc.0, d.lhs@) {
        Some(g) => {
            lemma_expr_no_labels(d.rhs, sc.0);
            let e = gen_expr(d.rhs, sc.0);
            if d.plus_or_minus is Some && !d.alias {
                let add = d.plus_or_minus.unwrap();
                let h = seq![Instr::Load(g as usize)];
                let t = seq![if add { Instr::Add } else { Instr::Sub }, Instr::Store(g as usize), Instr::Pop];
                assert(label_of(h[0]) is None);
                lemma_no_labels(h);
                assert forall|k: int| 0 <= k < t.len() implies label_of(#[trigger] t[k]) is None by {}
                lemma_no_labels(t);
                lemma_concat(h, e);
                lemma_concat(h + e, t);
                assert(code == h + e + t);
            } else {
                lemma_plain(Instr::Store(g as usize), Instr::Pop);
                lemma_concat(e, seq![Instr::Store(g as usize), Instr::Pop]);
                assert(code == e + seq![Instr::Store(g as usize), Instr::Pop]);
            }
        },
        None => {
            lemma_expr_no_labels(d.rhs, after.0);
        },
    }
}

proof fn lemma_jump_label(j: usize, l: usize)
    ensures
        label_set(seq![Instr::Jump(j), Instr::Label(l)]) == set![l as int],
        labels_distinct(seq![Instr::Jump(j), Instr::Label(l)]),
{
    let c = seq![Instr::Jump(j), Instr::Label(l)];
    assert(label_of(c[0]) is None);
    assert(label_of(c[1]) == Some(l as int));
    assert(label_set(c) =~= set![l as int]);
}

/// Compiling a statement numbers its labels consistently: the label counter
/// never goes back, every label the listing defines was taken from the
/// counter during this compilation, and none is defined twice. The loop end
/// that a `break` would use is the same afterwards.
#[verifier::rlimit(100)]
#[verifier::spinoff_prover]
pub proof fn labels_consistent(s: Stmt, sc: ScopeView)
    requires
        gen_stmt(s, sc) is Some,
    ensures
        ({
            let (code, after) = gen_stmt(s, sc).unwrap();
            &&& sc.1 <= after.1
            &&& after.2 == sc.2
            &&& labels_distinct(code)
            &&& labels_within(code, sc.1 as int, after.1 as int)
        }),
    decreases s, 0int,
{
    let (code, after) = gen_stmt(s, sc).unwrap();
    let blank = seq![Instr::Blank];
    assert(label_of(blank[0]) is None);
    lemma_no_labels(blank);
    let inner: Seq<Instr> = code.subrange(1, code.len() - 1);
    assert(code == blank + inner + blank);
    match s {
        Stmt::ExprStmt(e) => {
            lemma_expr_no_labels(e, sc.0);
            assert(inner == gen_expr(e, sc.0));
        },
        Stmt::PrintStmt(e) => {
            lemma_expr_no_labels(e, sc.0);
            let t = seq![Instr::Print, Instr::Push(10), Instr::PrintC, Instr::Pop, Instr::Pop];
            assert forall|k: int| 0 <= k < t.len() implies label_of(#[trigger] t[k]) is None by {}
            lemma_no_labels(t);
            lemma_concat(gen_expr(e, sc.0), t);
            assert(inner == gen_expr(e, sc.0) + t);
        },
        Stmt::Dec(d) => {
            lemma_dec_labels(d, sc);
            assert(inner == gen_dec(d, sc).unwrap().0);
        },
        Stmt::IfStmt(i) => {
            let l = sc.1;
            let t = gen_seq(i.then_block, 0, (sc.0, (l + 2) as usize, sc.2)).unwrap();
            let e = gen_seq(i.else_block, 0, t.1).unwrap();
            labels_consistent_seq(i.then_block, 0, (sc.0, (l + 2) as usize, sc.2));
            labels_consistent_seq(i.else_block, 0, t.1);
            let c0 = gen_expr(i.cond, sc.0);
            let c1 = seq![Instr::JumpIfFalse(l), Instr::Pop];
            let c2 = seq![Instr::Jump((l + 1) as usize), Instr::Label(l)];
            let c3 = seq![Instr::Label((l + 1) as usize)];
            lemma_expr_no_labels(i.cond, sc.0);
            lemma_plain(Instr::JumpIfFalse(l), Instr::Pop);
            lemma_jump_label((l + 1) as usize, l);
            lemma_one_label((l + 1) as usize);
            lemma_concat(c0, c1);
            lemma_concat(c0 + c1, t.0);
            lemma_concat(c0 + c1 + t.0, c2);
            lemma_concat(c0 + c1 + t.0 + c2, e.0);
            lemma_concat(c0 + c1 + t.0 + c2 + e.0, c3);
            assert(inner == c0 + c1 + t.0 + c2 + e.0 + c3);
            assert(label_set(inner) == label_set(t.0).union(set![l as int]).union(label_set(e.0)).union(set![l + 1]));
            assert forall|x: int| label_set(inner).contains(x) implies sc.1 <= x < after.1 by {
                if label_set(t.0).contains(x) {
                    assert(l + 2 <= x < t.1.1);
                } else if label_set(e.0).contains(x) {
                    assert(t.1.1 <= x < e.1.1);
                }
            }
        },
        Stmt::WhileStmt(w) => {
            let l = sc.1;
            let b = gen_seq(w.loop_block, 0, (sc.0, (l + 2) as usize, Some((l + 1) as usize))).unwrap();
            labels_consistent_seq(w.loop_block, 0, (sc.0, (l + 2) as usize, Some((l + 1) as usize)));
            let c0 = seq![Instr::Label(l)];
            let c1 = gen_expr(w.cond, sc.0);
            let c2 = seq![Instr::JumpIfFalse((l + 1) as usize)];
            let c3 = seq![Instr::Jump(l), Instr::Label((l + 1) as usize)];
            lemma_one_label(l);
            lemma_expr_no_labels(w.cond, sc.0);
            assert(label_of(c2[0]) is None);
            lemma_no_labels(c2);
            lemma_jump_label(l, (l + 1) as usize);
            lemma_concat(c0, c1);
            lemma_concat(c0 + c1, c2);
            lemma_concat(c0 + c1 + c2, b.0);
            lemma_concat(c0 + c1 + c2 + b.0, c3);
            assert(inner == c0 + c1 + c2 + b.0 + c3);
            assert(label_set(inner) == set![l as int].union(label_set(b.0)).union(set![l + 1]));
            assert forall|x: int| label_set(inner).contains(x) implies sc.1 <= x < after.1 by {
                if label_set(b.0).contains(x) {
                    assert(l + 2 <= x < b.1.1);
                }
            }
        },
        Stmt::Block(b) => {
            labels_consistent_seq(b, 0, sc);
            assert(inner == gen_seq(b, 0, sc).unwrap().0);
        },
        Stmt::Break => {
            assert forall|k: int| 0 <= k < inner.len() implies label_of(#[trigger] inner[k]) is None by {}
            lemma_no_labels(inner);
        },
    }
    assert(labels_distinct(inner));
    assert(labels_within(inner, sc.1 as int, after.1 as int));
    lemma_concat(blank, inner);
    lemma_concat(blank + inner, blank);
}

/// The statements of a block from index `i` on, compiled in order, number
/// their labels consistently.
pub proof fn labels_consistent_seq(b: Block, i: int, sc: ScopeView)
    requires
        gen_seq(b, i, sc) is Some,
    ensures
        ({
            let (code, after) = gen_seq(b, i, sc).unwrap();
            &&& sc.1 <= after.1
            &&& after.2 == sc.2
            &&& labels_distinct(code)
            &&& labels_within(code, sc.1 as int, after.1 as int)
        }),
    decreases b, b.statements@.len() - i + 1,
{
    if i < 0 || i >= b.statements@.len() {
        lemma_no_labels(seq![]);
    } else {
        let p = gen_stmt(b.statements@[i], sc).unwrap();
        labels_consistent(b.statements@[i], sc);
        labels_consistent_seq(b, i + 1, p.1);
        let q = gen_seq(b, i + 1, p.1).unwrap();
        lemma_concat(p.0, q.0);
    }
}

/// The target of a jump instruction.
pub open spec fn jump_of(x: Instr) -> Option<int> {
    match x {
        Instr::Jump(l) => Some(l as int),
        Instr::JumpIfFalse(l) => Some(l as int),
        _ => None,
    }
}

/// Every jump of the listing goes to one of `targets`.
pub open spec fn jumps_into(code: Seq<Instr>, targets: Set<int>) -> bool {
    forall|i: int| 0 <= i < code.len() && (#[trigger] jump_of(code[i])) is Some ==> targets.contains(jump_of(code[i]).unwrap())
}

/// The label a `break` may jump to from outside the listing.
pub open spec fn loop_target(end: Option<usize>) -> Set<int> {
    match end {
        Some(l) => set![l as int],
        None => Set::empty(),
    }
}

proof fn lemma_jumps_concat(a: Seq<Instr>, b: Seq<Instr>, t: Set<int>)
    requires
        jumps_into(a, t),
        jumps_into(b, t),
    ensures
        jumps_into(a + b, t),
{
    let c = a + b;
    assert forall|i: int| 0 <= i < c.len() && (#[trigger] jump_of(c[i])) is Some implies t.contains(jump_of(c[i]).unwrap()) by {
        if i < a.len() {
            assert(c[i] == a[i]);
        } else {
            assert(c[i] == b[i - a.len()]);
        }
    }
}

proof fn lemma_expr_no_jumps(e: S, frames: Seq<SlotFrame>, t: Set<int>)
    ensures
        jumps_into(gen_expr(e, frames), t),
    decreases e,
{
    match e {
        S::Atom(a) => {
            let c = gen_atom(a, frames);
            assert forall|i: int| 0 <= i < c.len() && (#[trigger] jump_of(c[i])) is Some implies t.contains(jump_of(c[i]).unwrap()) by {
                assert(c.len() <= 1);
            }
        },
        S::Binary(op, l, r) => {
            lemma_expr_no_jumps(*l, frames, t);
            lemma_expr_no_jumps(*r, frames, t);
            let o = seq![crate::compile::op_instr(op)];
            assert(jump_of(o[0]) is None);
            lemma_jumps_concat(gen_expr(*l, frames), gen_expr(*r, frames), t);
            lemma_jumps_concat(gen_expr(*l, frames) + gen_expr(*r, frames), o, t);
        },
    }
}

proof fn lemma_dec_no_jumps(d: Declaration, sc: ScopeView, t: Set<int>)
    requires
        gen_dec(d, sc) is Some,
    ensures
        jumps_into(gen_dec(d, sc).unwrap().0, t),
{
    let (code, after) = gen_dec(d, sc).unwrap();
    match resolve(sc.0, d.lhs@) {
        Some(g) => {
            lemma_expr_no_jumps(d.rhs, sc.0, t);
            let e = gen_expr(d.rhs, sc.0);
            if d.plus_or_minus is Some && !d.alias {
                let add = d.plus_or_minus.unwrap();
                let h = seq![Instr::Load(g as usize)];
                let r = seq![if add { Instr::Add } else { Instr::Sub }, Instr::Store(g as usize), Instr::Pop];
                assert(jump_of(h[0]) is None);
                assert forall|k: int| 0 <= k < r.len() && (#[trigger] jump_of(r[k])) is Some implies t.contains(jump_of(r[k]).unwrap()) by {}
                lemma_jumps_concat(h, e, t);
                lemma_jumps_concat(h + e, r, t);
                assert(code == h + e + r);
            } else {
                let r = seq![Instr::Store(g as usize), Instr::Pop];
                assert forall|k: int| 0 <= k < r.len() && (#[trigger] jump_of(r[k])) is Some implies t.contains(jump_of(r[k]).unwrap()) by {}
                lemma_jumps_concat(e, r, t);
                assert(code == e + r);
            }
        },
        None => {
            lemma_expr_no_jumps(d.rhs, after.0, t);
        },
    }
}

/// Every jump in a compiled statement goes to a label that the same listing
/// defines, or, for a `break`, to the end of the loop being compiled around it.
#[verifier::rlimit(100)]
#[verifier::spinoff_prover]
pub proof fn jumps_consistent(s: Stmt, sc: ScopeView)
    requires
        gen_stmt(s, sc) is Some,
    ensures
        ({
            let code = gen_stmt(s, sc).unwrap().0;
            jumps_into(code, label_set(code).union(loop_target(sc.2)))
        }),
    decreases s, 0int,
{
    let (code, after) = gen_stmt(s, sc).unwrap();
    let blank = seq![Instr::Blank];
    assert(label_of(blank[0]) is None);
    assert(jump_of(blank[0]) is None);
    lemma_no_labels(blank);
    let inner: Seq<Instr> = code.subrange(1, code.len() - 1 as int);
    assert(code == blank + inner + blank);
    lemma_concat(blank, inner);
    lemma_concat(blank + inner, blank);
    let d = label_set(code).union(loop_target(sc.2));
    assert(label_set(code) == label_set(inner));
    match s {
        Stmt::ExprStmt(e) => {
            lemma_expr_no_jumps(e, sc.0, d);
            assert(inner == gen_expr(e, sc.0));
        },
        Stmt::PrintStmt(e) => {
            lemma_expr_no_jumps(e, sc.0, d);
            let t = seq![Instr::Print, Instr::Push(10), Instr::PrintC, Instr::Pop, Instr::Pop];
            assert forall|k: int| 0 <= k < t.len() && (#[trigger] jump_of(t[k])) is Some implies d.contains(jump_of(t[k]).unwrap()) by {}
            lemma_jumps_concat(gen_expr(e, sc.0), t, d);
            assert(inner == gen_expr(e, sc.0) + t);
        },
        Stmt::Dec(dc) => {
            lemma_dec_no_jumps(dc, sc, d);
            assert(inner == gen_dec(dc, sc).unwrap().0);
        },
        Stmt::IfStmt(i) => {
            let l = sc.1;
            let sc1 = (sc.0, (l + 2) as usize, sc.2);
            let t = gen_seq(i.then_block, 0, sc1).unwrap();
            let e = gen_seq(i.else_block, 0, t.1).unwrap();
            jumps_consistent_seq(i.then_block, 0, sc1);
            jumps_consistent_seq(i.else_block, 0, t.1);
            labels_consistent_seq(i.then_block, 0, sc1);
            let c0 = gen_expr(i.cond, sc.0);
            let c1 = seq![Instr::JumpIfFalse(l), Instr::Pop];
            let c2 = seq![Instr::Jump((l + 1) as usize), Instr::Label(l)];
            let c3 = seq![Instr::Label((l + 1) as usize)];
            lemma_expr_no_labels(i.cond, sc.0);
            lemma_plain(Instr::JumpIfFalse(l), Instr::Pop);
            lemma_jump_label((l + 1) as usize, l);
            lemma_one_label((l + 1) as usize);
            lemma_concat(c0, c1);
            lemma_concat(c0 + c1, t.0);
            lemma_concat(c0 + c1 + t.0, c2);
            lemma_concat(c0 + c1 + t.0 + c2, e.0);
            lemma_concat(c0 + c1 + t.0 + c2 + e.0, c3);
            assert(inner == c0 + c1 + t.0 + c2 + e.0 + c3);
            assert(label_set(inner) == label_set(t.0).union(set![l as int]).union(label_set(e.0)).union(set![l + 1]));
            assert(d.contains(l as int) && d.contains(l + 1));
            lemma_expr_no_jumps(i.cond, sc.0, d);
            assert forall|k: int| 0 <= k < c1.len() && (#[trigger] jump_of(c1[k])) is Some implies d.contains(jump_of(c1[k]).unwrap()) by {}
            assert forall|k: int| 0 <= k < c2.len() && (#[trigger] jump_of(c2[k])) is Some implies d.contains(jump_of(c2[k]).unwrap()) by {}
            assert forall|k: int| 0 <= k < c3.len() && (#[trigger] jump_of(c3[k])) is Some implies d.contains(jump_of(c3[k]).unwrap()) by {}
            lemma_jumps_sub(t.0, label_set(t.0).union(loop_target(sc.2)), d);
            lemma_jumps_sub(e.0, label_set(e.0).union(loop_target(sc.2)), d);
            lemma_jumps_concat(c0, c1, d);
            lemma_jumps_concat(c0 + c1, t.0, d);
            lemma_jumps_concat(c0 + c1 + t.0, c2, d);
            lemma_jumps_concat(c0 + c1 + t.0 + c2, e.0, d);
            lemma_jumps_concat(c0 + c1 + t.0 + c2 + e.0, c3, d);
        },
        Stmt::WhileStmt(w) => {
            let l = sc.1;
            let sc1 = (sc.0, (l + 2) as usize, Some((l + 1) as usize));
            let b = gen_seq(w.loop_block, 0, sc1).unwrap();
            jumps_consistent_seq(w.loop_block, 0, sc1);
            let c0 = seq![Instr::Label(l)];
            let c1 = gen_expr(w.cond, sc.0);
            let c2 = seq![Instr::JumpIfFalse((l + 1) as usize)];
            let c3 = seq![Instr::Jump(l), Instr::Label((l + 1) as usize)];
            lemma_one_label(l);
            lemma_expr_no_labels(w.cond, sc.0);
            assert(label_of(c2[0]) is None);
            lemma_no_labels(c2);
            lemma_jump_label(l, (l + 1) as usize);
            lemma_concat(c0, c1);
            lemma_concat(c0 + c1, c2);
            lemma_concat(c0 + c1 + c2, b.0);
            lemma_concat(c0 + c1 + c2 + b.0, c3);
            assert(inner == c0 + c1 + c2 + b.0 + c3);
            assert(label_set(inner) == set![l as int].union(label_set(b.0)).union(set![l + 1]));
            assert(d.contains(l as int) && d.contains(l + 1));
            lemma_expr_no_jumps(w.cond, sc.0, d);
            assert(jump_of(c0[0]) is None);
            assert forall|k: int| 0 <= k < c2.len() && (#[trigger] jump_of(c2[k])) is Some implies d.contains(jump_of(c2[k]).unwrap()) by {}
            assert forall|k: int| 0 <= k < c3.len() && (#[trigger] jump_of(c3[k])) is Some implies d.contains(jump_of(c3[k]).unwrap()) by {}
            lemma_jumps_sub(b.0, label_set(b.0).union(loop_target(Some((l + 1) as usize))), d);
            lemma_jumps_concat(c0, c1, d);
            lemma_jumps_concat(c0 + c1, c2, d);
            lemma_jumps_concat(c0 + c1 + c2, b.0, d);
            lemma_jumps_concat(c0 + c1 + c2 + b.0, c3, d);
        },
        Stmt::Block(b) => {
            jumps_consistent_seq(b, 0, sc);
            assert(inner == gen_seq(b, 0, sc).unwrap().0);
        },
        Stmt::Break => {
            assert forall|k: int| 0 <= k < inner.len() && (#[trigger] jump_of(inner[k])) is Some implies d.contains(jump_of(inner[k]).unwrap()) by {}
        },
    }
    assert(jumps_into(inner, d));
    lemma_jumps_concat(blank, inner, d);
    lemma_jumps_concat(blank + inner, blank, d);
}

proof fn lemma_jumps_sub(code: Seq<Instr>, a: Set<int>, b: Set<int>)
    requires
        jumps_into(code, a),
        a.subset_of(b),
    ensures
        jumps_into(code, b),
{
}

/// The statements of a block from index `i` on jump only to labels of their
/// own listing or to the end of the loop being compiled around them.
pub proof fn jumps_consistent_seq(b: Block, i: int, sc: ScopeView)
    requires
        gen_seq(b, i, sc) is Some,
    ensures
        ({
            let code = gen_seq(b, i, sc).unwrap().0;
            jumps_into(code, label_set(code).union(loop_target(sc.2)))
        }),
    decreases b, b.statements@.len() - i + 1,
{
    if i < 0 || i >= b.statements@.len() {
    } else {
        let p = gen_stmt(b.statements@[i], sc).unwrap();
        jumps_consistent(b.statements@[i], sc);
        labels_consistent(b.statements@[i], sc);
        jumps_consistent_seq(b, i + 1, p.1);
        let q = gen_seq(b, i + 1, p.1).unwrap();
        lemma_concat(p.0, q.0);
        let d = label_set(p.0 + q.0).union(loop_target(sc.2));
        lemma_jumps_sub(p.0, label_set(p.0).union(loop_target(sc.2)), d);
        lemma_jumps_sub(q.0, label_set(q.0).union(loop_target(sc.2)), d);
        lemma_jumps_concat(p.0, q.0, d);
    }
}

/// No statement in `s`, at any depth, assigns to `x` without alias.
pub open spec fn keeps(s: Stmt, x: Seq<char>) -> bool
    decreases s, 0int,
{
    match s {
        Stmt::Dec(d) => d.alias || d.lhs@ != x,
        Stmt::IfStmt(i) => keeps_seq(i.then_block, 0, x) && keeps_seq(i.else_block, 0, x),
        Stmt::WhileStmt(w) => keeps_seq(w.loop_block, 0, x),
        Stmt::Block(b) => keeps_seq(b, 0, x),
        _ => true,
    }
}

/// No statement of `b` from index `i` on assigns to `x` without alias.
pub open spec fn keeps_seq(b: Block, i: int, x: Seq<char>) -> bool
    decreases b, b.statements@.len() - i + 1,
{
    if i < 0 || i >= b.statements@.len() {
        true
    } else {
        keeps(b.statements@[i], x) && keeps_seq(b, i + 1, x)
    }
}

/// Two frames bind `x` alike.
pub open spec fn agree(f: Frame, g: Frame, x: Seq<char>) -> bool {
    &&& f.contains_key(x) <==> g.contains_key(x)
    &&& f.contains_key(x) ==> f[x] == g[x]
}

/// Two stacks of equal height whose first `n` frames bind `x` alike.
pub open spec fn same_below(a: Seq<Frame>, b: Seq<Frame>, x: Seq<char>, n: int) -> bool {
    &&& a.len() == b.len()
    &&& forall|j: int| 0 <= j < n ==> agree(#[trigger] a[j], b[j], x)
}

proof fn lemma_assign_agree(frames: Seq<Frame>, y: Seq<char>, v: Atom, x: Seq<char>)
    requires
        y != x,
    ensures
        same_below(frames, assign(frames, y, v), x, frames.len() as int),
    decreases frames.len(),
{
    if frames.len() > 0 && !frames.last().contains_key(y) {
        lemma_assign_agree(frames.drop_last(), y, v, x);
        let a = assign(frames.drop_last(), y, v).push(frames.last());
        assert forall|j: int| 0 <= j < frames.len() implies agree(#[trigger] frames[j], a[j], x) by {
            if j < frames.len() - 1 {
                assert(frames.drop_last()[j] == frames[j]);
            }
        }
    }
}

proof fn lemma_lookup_agree(a: Seq<Frame>, b: Seq<Frame>, x: Seq<char>)
    requires
        same_below(a, b, x, a.len() as int),
    ensures
        lookup(a, x) == lookup(b, x),
    decreases a.len(),
{
    if a.len() > 0 {
        assert(agree(a[a.len() - 1], b[b.len() - 1], x));
        assert forall|j: int| 0 <= j < a.len() - 1 implies agree(#[trigger] a.drop_last()[j], b.drop_last()[j], x) by {
            assert(agree(a[j], b[j], x));
        }
        lemma_lookup_agree(a.drop_last(), b.drop_last(), x);
    }
}

proof fn lemma_stmt_keeps(s: Stmt, frames: Seq<Frame>, out: Seq<Atom>, fuel: nat, x: Seq<char>)
    requires
        keeps(s, x),
        frames.len() > 0,
    ensures
        same_below(frames, exec_stmt(s, frames, out, fuel).1, x, frames.len() - 1),
    decreases fuel, 0int,
{
    if fuel > 0 {
        let r = exec_stmt(s, frames, out, fuel);
        match s {
            Stmt::Dec(d) => {
                if let Ok(f) = declare_spec(frames, d) {
                    if !d.alias {
                        let v = choose|v: Atom| f == assign(frames, d.lhs@, v);
                        lemma_assign_agree(frames, d.lhs@, v, x);
                    }
                }
            },
            Stmt::IfStmt(i) => {
                lemma_block_keeps(i.then_block, frames, out, (fuel - 1) as nat, x);
                lemma_block_keeps(i.else_block, frames, out, (fuel - 1) as nat, x);
            },
            Stmt::WhileStmt(w) => {
                lemma_loop_keeps(w, frames, out, None, (fuel - 1) as nat, x);
            },
            Stmt::Block(b) => {
                lemma_block_keeps(b, frames, out, (fuel - 1) as nat, x);
            },
            _ => {},
        }
    }
}

proof fn lemma_block_keeps(b: Block, frames: Seq<Frame>, out: Seq<Atom>, fuel: nat, x: Seq<char>)
    requires
        keeps_seq(b, 0, x),
    ensures
        same_below(frames, exec_block(b, frames, out, fuel).1, x, frames.len() as int),
    decreases fuel, 0int,
{
    if fuel > 0 {
        let inner = frames.push(Frame::empty());
        lemma_seq_keeps(b, 0, inner, out, None, (fuel - 1) as nat, x);
        let r = exec_seq(b.statements@, 0, inner, out, None, (fuel - 1) as nat);
        assert forall|j: int| 0 <= j < frames.len() implies agree(#[trigger] frames[j], r.1.drop_last()[j], x) by {
            assert(inner[j] == frames[j]);
            assert(agree(inner[j], r.1[j], x));
        }
    }
}

proof fn lemma_seq_keeps(
    b: Block,
    i: int,
    frames: Seq<Frame>,
    out: Seq<Atom>,
    last: Option<Atom>,
    fuel: nat,
    x: Seq<char>,
)
    requires
        keeps_seq(b, i, x),
        frames.len() > 0,
    ensures
        same_below(frames, exec_seq(b.statements@, i, frames, out, last, fuel).1, x, frames.len() - 1),
    decreases fuel, b.statements@.len() - i + 1,
{
    if 0 <= i < b.statements@.len() {
        let r = exec_stmt(b.statements@[i], frames, out, fuel);
        lemma_stmt_keeps(b.statements@[i], frames, out, fuel, x);
        if let Ok(v) = r.0 {
            if v != Some(Atom::Break) {
                lemma_seq_keeps(b, i + 1, r.1, r.2, v, fuel, x);
                let q = exec_seq(b.statements@, i + 1, r.1, r.2, v, fuel);
                assert forall|j: int| 0 <= j < frames.len() - 1 implies agree(#[trigger] frames[j], q.1[j], x) by {
                    assert(agree(frames[j], r.1[j], x));
                    assert(agree(r.1[j], q.1[j], x));
                }
            }
        }
    }
}

proof fn lemma_loop_keeps(w: While, frames: Seq<Frame>, out: Seq<Atom>, last: Option<Atom>, fuel: nat, x: Seq<char>)
    requires
        keeps_seq(w.loop_block, 0, x),
    ensures
        same_below(frames, exec_loop(w, frames, out, last, fuel).1, x, frames.len() as int),
    decreases fuel, 0int,
{
    if fuel > 0 {
        if let Ok(c) = eval(w.cond, frames) {
            if c == Atom::Bool(true) {
                let r = exec_block(w.loop_block, frames, out, (fuel - 1) as nat);
                lemma_block_keeps(w.loop_block, frames, out, (fuel - 1) as nat, x);
                if let Ok(v) = r.0 {
                    if v != Some(Atom::Break) {
                        lemma_loop_keeps(w, r.1, r.2, v, (fuel - 1) as nat, x);
                        let q = exec_loop(w, r.1, r.2, v, (fuel - 1) as nat);
                        assert forall|j: int| 0 <= j < frames.len() implies agree(#[trigger] frames[j], q.1[j], x) by {
                            assert(agree(frames[j], r.1[j], x));
                            assert(agree(r.1[j], q.1[j], x));
                        }
                    }
                }
            }
        }
    }
}

/// Running a block statement in which nothing assigns to `x` without alias
/// (alias assignments shadow `x` in the block's own frame) leaves the number
/// of frames as it was and `x` reading as before, whatever the outcome.
pub proof fn block_shadow_resolution(b: Block, frames: Seq<Frame>, out: Seq<Atom>, fuel: nat, x: Seq<char>)
    requires
        keeps_seq(b, 0, x),
    ensures
        ({
            let after = exec_stmt(Stmt::Block(b), frames, out, fuel).1;
            &&& after.len() == frames.len()
            &&& lookup(after, x) == lookup(frames, x)
        }),
{
    if fuel > 0 {
        lemma_block_keeps(b, frames, out, (fuel - 1) as nat, x);
        lemma_lookup_agree(frames, exec_block(b, frames, out, (fuel - 1) as nat).1, x);
    }
}

/// The slot an instruction reads or writes.
pub open spec fn slot_of(x: Instr) -> Option<int> {
    match x {
        Instr::Load(g) => Some(g as int),
        Instr::Store(g) => Some(g as int),
        _ => None,
    }
}

/// Every slot the listing reads or writes is below `n`.
pub open spec fn slots_below(code: Seq<Instr>, n: int) -> bool {
    forall|i: int| 0 <= i < code.len() && (#[trigger] slot_of(code[i])) is Some ==> slot_of(code[i]).unwrap() < n
}

/// Every frame has dense slots and unique names.
pub open spec fn frames_wf(frames: Seq<SlotFrame>) -> bool {
    forall|i: int| 0 <= i < frames.len() ==> slot_frame_wf(#[trigger] frames[i])
}

proof fn lemma_slots_concat(a: Seq<Instr>, b: Seq<Instr>, n: int)
    requires
        slots_below(a, n),
        slots_below(b, n),
    ensures
        slots_below(a + b, n),
{
    let c = a + b;
    assert forall|i: int| 0 <= i < c.len() && (#[trigger] slot_of(c[i])) is Some implies slot_of(c[i]).unwrap() < n by {
        if i < a.len() {
            assert(c[i] == a[i]);
        } else {
            assert(c[i] == b[i - a.len()]);
        }
    }
}

proof fn lemma_resolve_bound(frames: Seq<SlotFrame>, k: Seq<char>)
    requires
        frames_wf(frames),
    ensures
        resolve(frames, k) is Some ==> 0 <= resolve(frames, k).unwrap() < total(frames),
    decreases frames.len(),
{
    if frames.len() > 0 {
        lemma_slot_in(frames.last(), k);
        lemma_total_nonneg(frames.drop_last());
        assert forall|i: int| 0 <= i < frames.len() - 1 implies slot_frame_wf(#[trigger] frames.drop_last()[i]) by {
            assert(slot_frame_wf(frames[i]));
        }
        lemma_resolve_bound(frames.drop_last(), k);
    }
}

proof fn lemma_expr_slots(e: S, frames: Seq<SlotFrame>, n: int)
    requires
        frames_wf(frames),
        total(frames) <= n,
        total(frames) <= usize::MAX,
    ensures
        slots_below(gen_expr(e, frames), n),
    decreases e,
{
    match e {
        S::Atom(a) => {
            let c = gen_atom(a, frames);
            if let Atom::Identifier(name) = a {
                lemma_resolve_bound(frames, name@);
            }
            assert forall|i: int| 0 <= i < c.len() && (#[trigger] slot_of(c[i])) is Some implies slot_of(c[i]).unwrap() < n by {
                assert(c.len() <= 1);
            }
        },
        S::Binary(op, l, r) => {
            lemma_expr_slots(*l, frames, n);
            lemma_expr_slots(*r, frames, n);
            let o = seq![crate::compile::op_instr(op)];
            assert(slot_of(o[0]) is None);
            lemma_slots_concat(gen_expr(*l, frames), gen_expr(*r, frames), n);
            lemma_slots_concat(gen_expr(*l, frames) + gen_expr(*r, frames), o, n);
        },
    }
}

proof fn lemma_dec_slots(d: Declaration, sc: ScopeView)
    requires
        gen_dec(d, sc) is Some,
        frames_wf(sc.0),
        sc.0.len() > 0,
        total(sc.0) <= usize::MAX,
    ensures
        ({
            let (code, after) = gen_dec(d, sc).unwrap();
            &&& frames_wf(after.0)
            &&& after.0.len() == sc.0.len()
            &&& total(sc.0) <= total(after.0) <= usize::MAX
            &&& slots_below(code, total(after.0))
        }),
{
    let (code, after) = gen_dec(d, sc).unwrap();
    let n = total(sc.0);
    match resolve(sc.0, d.lhs@) {
        Some(g) => {
            lemma_resolve_bound(sc.0, d.lhs@);
            lemma_expr_slots(d.rhs, sc.0, n);
            let e = gen_expr(d.rhs, sc.0);
            if d.plus_or_minus is Some && !d.alias {
                let add = d.plus_or_minus.unwrap();
                let h = seq![Instr::Load(g as usize)];
                let r = seq![if add { Instr::Add } else { Instr::Sub }, Instr::Store(g as usize), Instr::Pop];
                assert(slot_of(h[0]) == Some(g));

                assert forall|k: int| 0 <= k < r.len() && (#[trigger] slot_of(r[k])) is Some implies slot_of(r[k]).unwrap() < n by {}
                lemma_slots_concat(h, e, n);
                lemma_slots_concat(h + e, r, n);
                assert(code == h + e + r);
            } else {
                let r = seq![Instr::Store(g as usize), Instr::Pop];
                assert forall|k: int| 0 <= k < r.len() && (#[trigger] slot_of(r[k])) is Some implies slot_of(r[k]).unwrap() < n by {}
                lemma_slots_concat(e, r, n);
                assert(code == e + r);
            }
        },
        None => {
            let fr = sc.0;
            let last = fr.last();
            let nl = last.push((d.lhs, last.len() as usize));
            let nf = fr.update(fr.len() - 1, nl);
            assert(after.0 == nf);
            assert(nf.drop_last() == fr.drop_last());
            lemma_total_nonneg(fr.drop_last());
            assert(slot_in(last, d.lhs@) is None);
            assert(slot_frame_wf(last));
            lemma_slot_in(last, d.lhs@);
            assert forall|i: int| 0 <= i < nf.len() implies slot_frame_wf(#[trigger] nf[i]) by {
                if i == fr.len() - 1 {
                    assert forall|j: int| 0 <= j < nl.len() implies (#[trigger] nl[j]).1 == j by {
                        if j < last.len() {
                            assert(nl[j] == last[j]);
                        }
                    }
                    assert forall|a: int, b: int| 0 <= a < b < nl.len() implies nl[a].0@ != nl[b].0@ by {
                        assert(nl[a] == last[a]);
                        if b < last.len() {
                            assert(nl[b] == last[b]);
                        }
                    }
                } else {
                    assert(nf[i] == fr[i]);
                }
            }
            assert(total(nf) == total(fr) + 1);
            lemma_expr_slots(d.rhs, nf, total(nf));
        },
    }
}

/// Compiling a statement keeps every frame's slots dense and its names
/// unique, never shrinks the slot space, and reads and writes only slots
/// below the number of slots declared once it is done.
#[verifier::rlimit(100)]
#[verifier::spinoff_prover]
pub proof fn slots_consistent(s: Stmt, sc: ScopeView)
    requires
        gen_stmt(s, sc) is Some,
        frames_wf(sc.0),
        sc.0.len() > 0,
        total(sc.0) <= usize::MAX,
    ensures
        ({
            let (code, after) = gen_stmt(s, sc).unwrap();
            &&& frames_wf(after.0)
            &&& after.0.len() == sc.0.len()
            &&& total(sc.0) <= total(after.0) <= usize::MAX
            &&& slots_below(code, total(after.0))
        }),
    decreases s, 0int,
{
    let (code, after) = gen_stmt(s, sc).unwrap();
    let n = total(after.0);
    let blank = seq![Instr::Blank];
    assert(slot_of(blank[0]) is None);
    let inner: Seq<Instr> = code.subrange(1, code.len() - 1 as int);
    assert(code == blank + inner + blank);
    match s {
        Stmt::ExprStmt(e) => {
            lemma_expr_slots(e, sc.0, n);
            assert(inner == gen_expr(e, sc.0));
        },
        Stmt::PrintStmt(e) => {
            lemma_expr_slots(e, sc.0, n);
            let t = seq![Instr::Print, Instr::Push(10), Instr::PrintC, Instr::Pop, Instr::Pop];
            assert forall|k: int| 0 <= k < t.len() && (#[trigger] slot_of(t[k])) is Some implies slot_of(t[k]).unwrap() < n by {}
            lemma_slots_concat(gen_expr(e, sc.0), t, n);
            assert(inner == gen_expr(e, sc.0) + t);
        },
        Stmt::Dec(d) => {
            lemma_dec_slots(d, sc);
            assert(inner == gen_dec(d, sc).unwrap().0);
        },
        Stmt::IfStmt(i) => {
            let l = sc.1;
            let sc1 = (sc.0, (l + 2) as usize, sc.2);
            let t = gen_seq(i.then_block, 0, sc1).unwrap();
            let e = gen_seq(i.else_block, 0, t.1).unwrap();
            slots_consistent_seq(i.then_block, 0, sc1);
            slots_consistent_seq(i.else_block, 0, t.1);
            let c0 = gen_expr(i.cond, sc.0);
            let c1 = seq![Instr::JumpIfFalse(l), Instr::Pop];
            let c2 = seq![Instr::Jump((l + 1) as usize), Instr::Label(l)];
            let c3 = seq![Instr::Label((l + 1) as usize)];
            lemma_expr_slots(i.cond, sc.0, n);
            assert forall|k: int| 0 <= k < c1.len() && (#[trigger] slot_of(c1[k])) is Some implies slot_of(c1[k]).unwrap() < n by {}
            assert forall|k: int| 0 <= k < c2.len() && (#[trigger] slot_of(c2[k])) is Some implies slot_of(c2[k]).unwrap() < n by {}
            assert forall|k: int| 0 <= k < c3.len() && (#[trigger] slot_of(c3[k])) is Some implies slot_of(c3[k]).unwrap() < n by {}
            assert(slots_below(t.0, n));
            lemma_slots_concat(c0, c1, n);
            lemma_slots_concat(c0 + c1, t.0, n);
            lemma_slots_concat(c0 + c1 + t.0, c2, n);
            lemma_slots_concat(c0 + c1 + t.0 + c2, e.0, n);
            lemma_slots_concat(c0 + c1 + t.0 + c2 + e.0, c3, n);
            assert(inner == c0 + c1 + t.0 + c2 + e.0 + c3);
        },
        Stmt::WhileStmt(w) => {
            let l = sc.1;
            let sc1 = (sc.0, (l + 2) as usize, Some((l + 1) as usize));
            let b = gen_seq(w.loop_block, 0, sc1).unwrap();
            slots_consistent_seq(w.loop_block, 0, sc1);
            let c0 = seq![Instr::Label(l)];
            let c1 = gen_expr(w.cond, sc.0);
            let c2 = seq![Instr::JumpIfFalse((l + 1) as usize)];
            let c3 = seq![Instr::Jump(l), Instr::Label((l + 1) as usize)];
            lemma_expr_slots(w.cond, sc.0, n);
            assert(slot_of(c0[0]) is None);
            assert(slot_of(c2[0]) is None);
            assert forall|k: int| 0 <= k < c3.len() && (#[trigger] slot_of(c3[k])) is Some implies slot_of(c3[k]).unwrap() < n by {}
            lemma_slots_concat(c0, c1, n);
            lemma_slots_concat(c0 + c1, c2, n);
            lemma_slots_concat(c0 + c1 + c2, b.0, n);
            lemma_slots_concat(c0 + c1 + c2 + b.0, c3, n);
            assert(inner == c0 + c1 + c2 + b.0 + c3);
        },
        Stmt::Block(b) => {
            slots_consistent_seq(b, 0, sc);
            assert(inner == gen_seq(b, 0, sc).unwrap().0);
        },
        Stmt::Break => {
            assert forall|k: int| 0 <= k < inner.len() && (#[trigger] slot_of(inner[k])) is Some implies slot_of(inner[k]).unwrap() < n by {}
        },
    }
    assert(slots_below(inner, n));
    lemma_slots_concat(blank, inner, n);
    lemma_slots_concat(blank + inner, blank, n);
}

/// The statements of a block from index `i` on, compiled in order, keep the
/// slot space well formed and use only slots declared by their end.
pub proof fn slots_consistent_seq(b: Block, i: int, sc: ScopeView)
    requires
        gen_seq(b, i, sc) is Some,
        frames_wf(sc.0),
        sc.0.len() > 0,
        total(sc.0) <= usize::MAX,
    ensures
        ({
            let (code, after) = gen_seq(b, i, sc).unwrap();
            &&& frames_wf(after.0)
            &&& after.0.len() == sc.0.len()
            &&& total(sc.0) <= total(after.0) <= usize::MAX
            &&& slots_below(code, total(after.0))
        }),
    decreases b, b.statements@.len() - i + 1,
{
    if 0 <= i < b.statements@.len() {
        let p = gen_stmt(b.statements@[i], sc).unwrap();
        slots_consistent(b.statements@[i], sc);
        slots_consistent_seq(b, i + 1, p.1);
        let q = gen_seq(b, i + 1, p.1).unwrap();
        let n = total(q.1.0);
        assert forall|k: int| 0 <= k < p.0.len() && (#[trigger] slot_of(p.0[k])) is Some implies slot_of(p.0[k]).unwrap() < n by {}
        lemma_slots_concat(p.0, q.0, n);
    }
}

} // verus!
