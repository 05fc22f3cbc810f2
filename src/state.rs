use vstd::prelude::*;

use crate::atom::Atom;

verus! {

/// The bindings of one frame, as a map from name to value.
pub type Frame = Map<Seq<char>, Atom>;

/// The map that a list of bindings denotes; a later binding of a name wins.
pub open spec fn frame_of(vars: Seq<(String, Atom)>) -> Frame
    decreases vars.len(),
{
    if vars.len() == 0 {
        Map::empty()
    } else {
        frame_of(vars.drop_last()).insert(vars.last().0@, vars.last().1)
    }
}

/// No name is bound twice in one list of bindings.
pub open spec fn keys_unique(vars: Seq<(String, Atom)>) -> bool {
    forall|i: int, j: int| 0 <= i < j < vars.len() ==> vars[i].0@ != vars[j].0@
}

/// Innermost-first resolution of a name through a stack of frames.
pub open spec fn lookup(frames: Seq<Frame>, name: Seq<char>) -> Option<Atom>
    decreases frames.len(),
{
    if frames.len() == 0 {
        None
    } else if frames.last().contains_key(name) {
        Some(frames.last()[name])
    } else {
        lookup(frames.drop_last(), name)
    }
}

/// The stack after rebinding `name` to `v` in the innermost frame that owns
/// it; unchanged when no frame does.
pub open spec fn assign(frames: Seq<Frame>, name: Seq<char>, v: Atom) -> Seq<Frame>
    decreases frames.len(),
{
    if frames.len() == 0 {
        frames
    } else if frames.last().contains_key(name) {
        frames.update(frames.len() - 1, frames.last().insert(name, v))
    } else {
        assign(frames.drop_last(), name, v).push(frames.last())
    }
}

/// The stack after binding `name` to `v` in the innermost frame.
pub open spec fn bind_innermost(frames: Seq<Frame>, name: Seq<char>, v: Atom) -> Seq<Frame> {
    frames.update(frames.len() - 1, frames.last().insert(name, v))
}

proof fn lemma_frame_dom(vars: Seq<(String, Atom)>, k: Seq<char>)
    ensures
        frame_of(vars).contains_key(k) <==> exists|i: int| 0 <= i < vars.len() && vars[i].0@ == k,
    decreases vars.len(),
{
    if vars.len() > 0 {
        lemma_frame_dom(vars.drop_last(), k);
        if frame_of(vars.drop_last()).contains_key(k) {
            let i = choose|i: int| 0 <= i < vars.len() - 1 && vars.drop_last()[i].0@ == k;
            assert(vars[i].0@ == k);
        }
        if exists|i: int| 0 <= i < vars.len() && vars[i].0@ == k {
            let i = choose|i: int| 0 <= i < vars.len() && vars[i].0@ == k;
            if i < vars.len() - 1 {
                assert(vars.drop_last()[i].0@ == k);
            }
        }
    }
}

proof fn lemma_frame_get(vars: Seq<(String, Atom)>, i: int)
    requires
        keys_unique(vars),
        0 <= i < vars.len(),
    ensures
        frame_of(vars).contains_key(vars[i].0@),
        frame_of(vars)[vars[i].0@] == vars[i].1,
    decreases vars.len(),
{
    if i < vars.len() - 1 {
        assert(keys_unique(vars.drop_last()));
        lemma_frame_get(vars.drop_last(), i);
        assert(vars.drop_last()[i] == vars[i]);
    }
}

proof fn lemma_frame_set(vars: Seq<(String, Atom)>, i: int, v: Atom)
    requires
        keys_unique(vars),
        0 <= i < vars.len(),
    ensures
        frame_of(vars.update(i, (vars[i].0, v))) == frame_of(vars).insert(vars[i].0@, v),
        keys_unique(vars.update(i, (vars[i].0, v))),
    decreases vars.len(),
{
    let w = vars.update(i, (vars[i].0, v));
    if i == vars.len() - 1 {
        assert(w.drop_last() == vars.drop_last());
        assert(frame_of(w) =~= frame_of(vars).insert(vars[i].0@, v));
    } else {
        assert(keys_unique(vars.drop_last()));
        lemma_frame_set(vars.drop_last(), i, v);
        assert(w.drop_last() == vars.drop_last().update(i, (vars[i].0, v)));
        assert(vars.last().0@ != vars[i].0@);
        assert(frame_of(w) =~= frame_of(vars).insert(vars[i].0@, v));
    }
}

proof fn lemma_lookup_above(frames: Seq<Frame>, i: int, k: Seq<char>)
    requires
        0 <= i <= frames.len(),
        forall|j: int| i <= j < frames.len() ==> !(#[trigger] frames[j]).contains_key(k),
    ensures
        lookup(frames, k) == lookup(frames.take(i), k),
    decreases frames.len(),
{
    if i < frames.len() {
        lemma_lookup_above(frames.drop_last(), i, k);
        assert(frames.drop_last().take(i) == frames.take(i));
    } else {
        assert(frames.take(i) == frames);
    }
}

pub proof fn lemma_assign_above(frames: Seq<Frame>, i: int, k: Seq<char>, v: Atom)
    requires
        0 <= i < frames.len(),
        frames[i].contains_key(k),
        forall|j: int| i < j < frames.len() ==> !(#[trigger] frames[j]).contains_key(k),
    ensures
        assign(frames, k, v) == frames.update(i, frames[i].insert(k, v)),
    decreases frames.len(),
{
    if i < frames.len() - 1 {
        lemma_assign_above(frames.drop_last(), i, k, v);
        assert(frames.drop_last().update(i, frames[i].insert(k, v)).push(frames.last())
            == frames.update(i, frames[i].insert(k, v)));
    }
}

proof fn lemma_assign_absent(frames: Seq<Frame>, k: Seq<char>, v: Atom)
    requires
        forall|j: int| 0 <= j < frames.len() ==> !(#[trigger] frames[j]).contains_key(k),
    ensures
        assign(frames, k, v) == frames,
    decreases frames.len(),
{
    if frames.len() > 0 {
        lemma_assign_absent(frames.drop_last(), k, v);
        assert(frames.drop_last().push(frames.last()) == frames);
    }
}

/// After rebinding a name that some frame binds, reading it gives the new value.
pub proof fn lemma_lookup_assign(frames: Seq<Frame>, name: Seq<char>, v: Atom)
    requires
        lookup(frames, name) is Some,
    ensures
        lookup(assign(frames, name, v), name) == Some(v),
        assign(frames, name, v).len() == frames.len(),
    decreases frames.len(),
{
    if !frames.last().contains_key(name) {
        lemma_lookup_assign(frames.drop_last(), name, v);
        let a = assign(frames.drop_last(), name, v).push(frames.last());
        assert(a.drop_last() == assign(frames.drop_last(), name, v));
    }
}

/// One frame of bindings; a name occurs at most once.
#[derive(Debug)]
pub struct Scope {
    pub vars: Vec<(String, Atom)>,
}

impl View for Scope {
    type V = Frame;

    open spec fn view(&self) -> Frame {
        frame_of(self.vars@)
    }
}

impl Scope {
    /// No name is bound twice.
    pub open spec fn wf(&self) -> bool {
        keys_unique(self.vars@)
    }

    /// An empty frame.
    pub fn new() -> (r: Scope)
        ensures
            r.wf(),
            r@ == Frame::empty(),
    {
        Scope { vars: Vec::new() }
    }

    /// The position of the binding of `name`, if there is one.
    fn position(&self, name: &String) -> (r: Option<usize>)
        requires
            self.wf(),
        ensures
            match r {
                Some(i) => i < self.vars@.len() && self.vars@[i as int].0@ == name@,
                None => !self@.contains_key(name@),
            },
    {
        let mut i: usize = 0;
        while i < self.vars.len()
            invariant
                i <= self.vars@.len(),
                forall|j: int| 0 <= j < i ==> self.vars@[j].0@ != name@,
            decreases self.vars@.len() - i,
        {
            if self.vars[i].0 == *name {
                return Some(i);
            }
            i = i + 1;
        }
        proof {
            lemma_frame_dom(self.vars@, name@);
        }
        None
    }

    /// Whether the frame binds every name at most once.
    pub fn is_well_formed(&self) -> (r: bool)
        ensures
            r == self.wf(),
    {
        let n = self.vars.len();
        let mut j: usize = 0;
        while j < n
            invariant
                n == self.vars@.len(),
                j <= n,
                forall|a: int, b: int| 0 <= a < b < j ==> self.vars@[a].0@ != self.vars@[b].0@,
            decreases n - j,
        {
            let mut i: usize = 0;
            while i < j
                invariant
                    n == self.vars@.len(),
                    i <= j < n,
                    forall|a: int| 0 <= a < i ==> self.vars@[a].0@ != self.vars@[j as int].0@,
                decreases j - i,
            {
                if self.vars[i].0 == self.vars[j].0 {
                    return false;
                }
                i = i + 1;
            }
            j = j + 1;
        }
        true
    }

    /// The value bound to `name` in this frame.
    pub fn get(&self, name: &String) -> (r: Option<&Atom>)
        requires
            self.wf(),
        ensures
            match r {
                Some(a) => self@.contains_key(name@) && *a == self@[name@],
                None => !self@.contains_key(name@),
            },
    {
        match self.position(name) {
            Some(i) => {
                proof {
                    lemma_frame_get(self.vars@, i as int);
                }
                Some(&self.vars[i].1)
            },
            None => None,
        }
    }

    /// Binds `name` to `val` in this frame, replacing any earlier binding.
    pub fn insert(&mut self, name: String, val: Atom)
        requires
            old(self).wf(),
        ensures
            final(self).wf(),
            final(self)@ == old(self)@.insert(name@, val),
    {
        match self.position(&name) {
            Some(i) => {
                proof {
                    lemma_frame_set(self.vars@, i as int, val);
                }
                let key = self.vars[i].0.clone();
                self.vars.set(i, (key, val));
            },
            None => {
                proof {
                    lemma_frame_dom(self.vars@, name@);
                }
                let ghost pre = self.vars@;
                self.vars.push((name, val));
                proof {
                    assert(self.vars@.drop_last() == pre);
                }
            },
        }
    }
}

/// The interpreter's environment: a stack of frames, innermost last.
#[derive(Debug)]
pub struct State {
    pub scopes: Vec<Scope>,
}

impl View for State {
    type V = Seq<Frame>;

    open spec fn view(&self) -> Seq<Frame> {
        self.scopes@.map_values(|s: Scope| s@)
    }
}

impl State {
    /// At least one frame, and each frame binds a name at most once.
    pub open spec fn wf(&self) -> bool {
        &&& self.scopes@.len() > 0
        &&& forall|i: int| 0 <= i < self.scopes@.len() ==> #[trigger] self.scopes@[i].wf()
    }

    /// A state with one empty frame.
    pub fn new() -> (r: State)
        ensures
            r.wf(),
            r@ == seq![Frame::empty()],
    {
        let mut scopes = Vec::new();
        scopes.push(Scope::new());
        let r = State { scopes };
        assert(r@ =~= seq![Frame::empty()]);
        r
    }
    /// Whether the state has a frame and every frame binds each name at most once.
    pub fn is_well_formed(&self) -> (r: bool)
        ensures
            r == self.wf(),
    {
        if self.scopes.len() == 0 {
            return false;
        }
        let mut i: usize = 0;
        while i < self.scopes.len()
            invariant
                i <= self.scopes@.len(),
                forall|j: int| 0 <= j < i ==> #[trigger] self.scopes@[j].wf(),
            decreases self.scopes@.len() - i,
        {
            if !self.scopes[i].is_well_formed() {
                return false;
            }
            i = i + 1;
        }
        true
    }

    /// The index of the innermost frame that binds `name`.
    fn owner_of(&self, name: &String) -> (r: Option<usize>)
        requires
            self.wf(),
        ensures
            match r {
                Some(i) => {
                    &&& i < self@.len()
                    &&& self@[i as int].contains_key(name@)
                    &&& forall|j: int| i < j < self@.len() ==> !(#[trigger] self@[j]).contains_key(name@)
                },
                None => forall|j: int| 0 <= j < self@.len() ==> !(#[trigger] self@[j]).contains_key(name@),
            },
    {
        let mut i: usize = self.scopes.len();
        while i > 0
            invariant
                i <= self@.len(),
                self.wf(),
                forall|j: int| i <= j < self@.len() ==> !(#[trigger] self@[j]).contains_key(name@),
            decreases i,
        {
            i = i - 1;
            assert(self.scopes@[i as int].wf());
            if self.scopes[i].get(name).is_some() {
                return Some(i);
            }
        }
        None
    }

    /// The value of `var` in the innermost frame that binds it.
    pub fn get_variable(&self, var: &str) -> (r: Option<&Atom>)
        requires
            self.wf(),
        ensures
            match r {
                Some(a) => lookup(self@, var@) == Some(*a),
                None => lookup(self@, var@) is None,
            },
    {
        let name = var.to_owned();
        match self.owner_of(&name) {
            Some(i) => {
                proof {
                    lemma_lookup_above(self@, i + 1, name@);
                    assert(self@.take(i + 1).drop_last() == self@.take(i as int));
                    assert(self.scopes@[i as int].wf());
                }
                self.scopes[i].get(&name)
            },
            None => {
                proof {
                    lemma_lookup_above(self@, 0, name@);
                }
                None
            },
        }
    }

    /// Rebinds `var` to `val` in the innermost frame that binds it, leaving
    /// every other frame as it was; does nothing when no frame binds it.
    pub fn modify_variable(&mut self, var: &str, val: Atom)
        requires
            old(self).wf(),
        ensures
            final(self).wf(),
            final(self).scopes@.len() == old(self).scopes@.len(),
            final(self)@ == assign(old(self)@, var@, val),
    {
        let name = var.to_owned();
        match self.owner_of(&name) {
            Some(i) => {
                proof {
                    lemma_assign_above(self@, i as int, name@, val);
                    assert(self.scopes@[i as int].wf());
                }
                let ghost pre = self.scopes@;
                self.scopes[i].insert(name, val);
                proof {
                    assert(self@ =~= pre.map_values(|s: Scope| s@).update(i as int, pre[i as int]@.insert(var@, val)));
                    assert forall|j: int| 0 <= j < self.scopes@.len() implies #[trigger] self.scopes@[j].wf() by {
                        if j != i {
                            assert(self.scopes@[j] == pre[j]);
                        }
                    }
                }
            },
            None => {
                proof {
                    lemma_assign_absent(self@, name@, val);
                }
            },
        }
    }

    /// Binds `var` to `val` in the innermost frame.
    pub(crate) fn bind_local(&mut self, var: String, val: Atom)
        requires
            old(self).wf(),
        ensures
            final(self).wf(),
            final(self).scopes@.len() == old(self).scopes@.len(),
            final(self)@ == bind_innermost(old(self)@, var@, val),
    {
        let i = self.scopes.len() - 1;
        let ghost pre = self.scopes@;
        assert(self.scopes@[i as int].wf());
        self.scopes[i].insert(var, val);
        proof {
            assert(self@ =~= bind_innermost(pre.map_values(|s: Scope| s@), var@, val));
            assert forall|j: int| 0 <= j < self.scopes@.len() implies #[trigger] self.scopes@[j].wf() by {
                if j != i {
                    assert(self.scopes@[j] == pre[j]);
                }
            }
        }
    }
}

impl Default for Scope {
    fn default() -> (r: Scope)
        ensures
            r.wf(),
            r@ == Frame::empty(),
    {
        Scope::new()
    }
}

impl Default for State {
    /// A state with one empty frame.
    fn default() -> (r: State)
        ensures
            r.wf(),
            r@ == seq![Frame::empty()],
    {
        State::new()
    }
}

} // verus!
