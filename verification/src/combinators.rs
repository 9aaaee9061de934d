//! Composition combinators over the automaton capability: union,
//! concatenation and repetition. Each returns a new capability over a
//! tagged composite state type, resolving every operation by case
//! dispatch on the tag; only states actually visited during a run are
//! ever constructed.

use vstd::prelude::*;

use crate::error::UnknownSymbol;
use crate::lazy_nfa::LazyNfa;

verus! {

/// A state of a union composite: a state of the left branch or one of
/// the right, the tag recording which.
#[derive(Clone, Copy, Debug, PartialEq, Eq, Hash)]
pub enum Sum<L, R> {
    Left(L),
    Right(R),
}

/// The union combinator: accepts whatever either branch accepts. No
/// combined state table is ever built.
pub struct UnionNfa<L, R> {
    pub left: L,
    pub right: R,
}

/// `v` re-tagged elementwise as left-branch states.
fn map_sum_left<LS: Copy, RS: Copy>(v: &Vec<LS>) -> (r: Vec<Sum<LS, RS>>)
    ensures
        r@.len() == v@.len(),
        forall|i: int| 0 <= i < v@.len() ==> r@[i] == Sum::<LS, RS>::Left(v@[i]),
{
    let mut r: Vec<Sum<LS, RS>> = Vec::new();
    let mut i: usize = 0;
    while i < v.len()
        invariant
            i <= v@.len(),
            r@.len() == i,
            forall|t: int| 0 <= t < i ==> r@[t] == Sum::<LS, RS>::Left(v@[t]),
        decreases v@.len() - i,
    {
        r.push(Sum::Left(v[i]));
        i = i + 1;
    }
    r
}

/// `v` re-tagged elementwise as right-branch states.
fn map_sum_right<LS: Copy, RS: Copy>(v: &Vec<RS>) -> (r: Vec<Sum<LS, RS>>)
    ensures
        r@.len() == v@.len(),
        forall|i: int| 0 <= i < v@.len() ==> r@[i] == Sum::<LS, RS>::Right(v@[i]),
{
    let mut r: Vec<Sum<LS, RS>> = Vec::new();
    let mut i: usize = 0;
    while i < v.len()
        invariant
            i <= v@.len(),
            r@.len() == i,
            forall|t: int| 0 <= t < i ==> r@[t] == Sum::<LS, RS>::Right(v@[t]),
        decreases v@.len() - i,
    {
        r.push(Sum::Right(v[i]));
        i = i + 1;
    }
    r
}

/// A state of a concatenation composite: still inside the left operand,
/// or already inside the right one.
#[derive(Clone, Copy, Debug, PartialEq, Eq, Hash)]
pub enum Stage<L, R> {
    Before(L),
    After(R),
}

/// The concatenation combinator: accepts a string exactly when it splits
/// into a prefix the left operand accepts and a suffix the right one
/// accepts. The right operand's start configurations become active at
/// every point where the left operand has just accepted.
pub struct ConcatNfa<L, R> {
    pub left: L,
    pub right: R,
}

/// A state of a repetition composite: an inner state, tagged by whether
/// it is a start configuration of the inner automaton with no symbol of
/// the current iteration consumed yet (`Fresh`) or a configuration
/// somewhere inside an iteration (`Mid`).
#[derive(Clone, Copy, Debug, PartialEq, Eq, Hash)]
pub enum Iteration<S> {
    Fresh(S),
    Mid(S),
}

/// The repetition combinator: accepts the empty string and every
/// concatenation of nonempty strings the inner automaton accepts. Both
/// the continue-this-iteration and the start-a-new-iteration branches are
/// kept as parallel nondeterministic possibilities.
pub struct StarNfa<I> {
    pub inner: I,
}

/// Whether any entry of `v` is an accepting configuration of `a`.
fn any_accepted<A: LazyNfa>(a: &A, v: &Vec<A::State>) -> (b: bool)
    requires
        a.wf(),
    ensures
        b == (exists|i: int| 0 <= i < v@.len() && a.spec_accepted(#[trigger] v@[i])),
{
    let mut i: usize = 0;
    while i < v.len()
        invariant
            a.wf(),
            i <= v@.len(),
            forall|t: int| 0 <= t < i ==> !a.spec_accepted(#[trigger] v@[t]),
        decreases v@.len() - i,
    {
        if a.accepted(&v[i]) {
            return true;
        }
        i = i + 1;
    }
    false
}

impl<L: LazyNfa, R: LazyNfa> LazyNfa for UnionNfa<L, R> {
    type State = Sum<L::State, R::State>;

    open spec fn wf(&self) -> bool {
        self.left.wf() && self.right.wf()
    }

    open spec fn spec_initial(&self) -> Set<Self::State> {
        Set::new(
            |s: Sum<L::State, R::State>|
                match s {
                    Sum::Left(l) => self.left.spec_initial().contains(l),
                    Sum::Right(r) => self.right.spec_initial().contains(r),
                },
        )
    }

    open spec fn spec_accepted(&self, s: Self::State) -> bool {
        match s {
            Sum::Left(l) => self.left.spec_accepted(l),
            Sum::Right(r) => self.right.spec_accepted(r),
        }
    }

    open spec fn spec_step(&self, s: Self::State, c: char) -> Set<Self::State> {
        match s {
            Sum::Left(l) => Set::new(
                |y: Sum<L::State, R::State>|
                    match y {
                        Sum::Left(y2) => self.left.spec_step(l, c).contains(y2),
                        Sum::Right(_) => false,
                    },
            ),
            Sum::Right(r) => Set::new(
                |y: Sum<L::State, R::State>|
                    match y {
                        Sum::Left(_) => false,
                        Sum::Right(y2) => self.right.spec_step(r, c).contains(y2),
                    },
            ),
        }
    }

    open spec fn spec_ok(&self, s: Self::State, c: char) -> bool {
        match s {
            Sum::Left(l) => self.left.spec_ok(l, c),
            Sum::Right(r) => self.right.spec_ok(r, c),
        }
    }

    open spec fn spec_sym_ok(&self, c: char) -> bool {
        self.left.spec_sym_ok(c) && self.right.spec_sym_ok(c)
    }

    proof fn lemma_sym_ok(&self, s: Self::State, c: char) {
        match s {
            Sum::Left(l) => self.left.lemma_sym_ok(l, c),
            Sum::Right(r) => self.right.lemma_sym_ok(r, c),
        }
    }

    /// The tag-wrapped union of both branches' start configurations.
    fn initial_state(&self) -> (r: Vec<Self::State>) {
        let lv = self.left.initial_state();
        let rv = self.right.initial_state();
        let mut out = map_sum_left::<L::State, R::State>(&lv);
        let mut rmapped = map_sum_right::<L::State, R::State>(&rv);
        out.append(&mut rmapped);
        proof {
            assert forall|y: Sum<L::State, R::State>| out@.contains(y)
                implies self.spec_initial().contains(y) by {
                let t = choose|t: int| 0 <= t < out@.len() && out@[t] == y;
                if t < lv@.len() {
                    assert(out@[t] == Sum::<L::State, R::State>::Left(lv@[t]));
                    assert(lv@.contains(lv@[t]));
                    assert(lv@.to_set().contains(lv@[t]));
                } else {
                    assert(out@[t] == Sum::<L::State, R::State>::Right(rv@[t - lv@.len()]));
                    assert(rv@.contains(rv@[t - lv@.len()]));
                    assert(rv@.to_set().contains(rv@[t - lv@.len()]));
                }
            }
            assert forall|y: Sum<L::State, R::State>| self.spec_initial().contains(y)
                implies out@.contains(y) by {
                match y {
                    Sum::Left(l) => {
                        assert(lv@.to_set().contains(l));
                        assert(lv@.contains(l));
                        let t = choose|t: int| 0 <= t < lv@.len() && lv@[t] == l;
                        assert(out@[t] == y);
                    },
                    Sum::Right(r2) => {
                        assert(rv@.to_set().contains(r2));
                        assert(rv@.contains(r2));
                        let t = choose|t: int| 0 <= t < rv@.len() && rv@[t] == r2;
                        assert(out@[lv@.len() + t] == y);
                    },
                }
            }
            assert(out@.to_set() =~= self.spec_initial());
            assert forall|a: int, b: int| 0 <= a < b < out@.len() implies out@[a] != out@[b] by {
                if b < lv@.len() {
                    assert(lv@[a] != lv@[b]);
                } else if a >= lv@.len() {
                    assert(rv@[a - lv@.len()] != rv@[b - lv@.len()]);
                }
            }
        }
        out
    }

    fn accepted(&self, s: &Self::State) -> (b: bool) {
        match s {
            Sum::Left(l) => self.left.accepted(l),
            Sum::Right(r) => self.right.accepted(r),
        }
    }

    /// Dispatches to the branch the tag names, re-wrapping its results;
    /// a branch's unknown-symbol failure propagates.
    fn advance(&self, s: &Self::State, c: char) -> (r: Result<Vec<Self::State>, UnknownSymbol>) {
        match s {
            Sum::Left(l) => {
                match self.left.advance(l, c) {
                    Ok(v) => {
                        let out = map_sum_left::<L::State, R::State>(&v);
                        proof {
                            assert forall|y: Sum<L::State, R::State>| out@.contains(y)
                                implies self.spec_step(*s, c).contains(y) by {
                                let t = choose|t: int| 0 <= t < out@.len() && out@[t] == y;
                                assert(out@[t] == Sum::<L::State, R::State>::Left(v@[t]));
                                assert(v@.contains(v@[t]));
                                assert(v@.to_set().contains(v@[t]));
                            }
                            assert forall|y: Sum<L::State, R::State>| self.spec_step(
                                *s,
                                c,
                            ).contains(y) implies out@.contains(y) by {
                                match y {
                                    Sum::Left(y2) => {
                                        assert(v@.to_set().contains(y2));
                                        assert(v@.contains(y2));
                                        let t = choose|t: int| 0 <= t < v@.len() && v@[t] == y2;
                                        assert(out@[t] == y);
                                    },
                                    Sum::Right(_) => {},
                                }
                            }
                            assert(out@.to_set() =~= self.spec_step(*s, c));
                        }
                        Ok(out)
                    },
                    Err(e) => Err(e),
                }
            },
            Sum::Right(r2) => {
                match self.right.advance(r2, c) {
                    Ok(v) => {
                        let out = map_sum_right::<L::State, R::State>(&v);
                        proof {
                            assert forall|y: Sum<L::State, R::State>| out@.contains(y)
                                implies self.spec_step(*s, c).contains(y) by {
                                let t = choose|t: int| 0 <= t < out@.len() && out@[t] == y;
                                assert(out@[t] == Sum::<L::State, R::State>::Right(v@[t]));
                                assert(v@.contains(v@[t]));
                                assert(v@.to_set().contains(v@[t]));
                            }
                            assert forall|y: Sum<L::State, R::State>| self.spec_step(
                                *s,
                                c,
                            ).contains(y) implies out@.contains(y) by {
                                match y {
                                    Sum::Left(_) => {},
                                    Sum::Right(y2) => {
                                        assert(v@.to_set().contains(y2));
                                        assert(v@.contains(y2));
                                        let t = choose|t: int| 0 <= t < v@.len() && v@[t] == y2;
                                        assert(out@[t] == y);
                                    },
                                }
                            }
                            assert(out@.to_set() =~= self.spec_step(*s, c));
                        }
                        Ok(out)
                    },
                    Err(e) => Err(e),
                }
            },
        }
    }
}

/// `v` re-tagged elementwise as left-operand (`Before`) states.
fn map_stage_before<LS: Copy, RS: Copy>(v: &Vec<LS>) -> (r: Vec<Stage<LS, RS>>)
    ensures
        r@.len() == v@.len(),
        forall|i: int| 0 <= i < v@.len() ==> r@[i] == Stage::<LS, RS>::Before(v@[i]),
{
    let mut r: Vec<Stage<LS, RS>> = Vec::new();
    let mut i: usize = 0;
    while i < v.len()
        invariant
            i <= v@.len(),
            r@.len() == i,
            forall|t: int| 0 <= t < i ==> r@[t] == Stage::<LS, RS>::Before(v@[t]),
        decreases v@.len() - i,
    {
        r.push(Stage::Before(v[i]));
        i = i + 1;
    }
    r
}

/// `v` re-tagged elementwise as right-operand (`After`) states.
fn map_stage_after<LS: Copy, RS: Copy>(v: &Vec<RS>) -> (r: Vec<Stage<LS, RS>>)
    ensures
        r@.len() == v@.len(),
        forall|i: int| 0 <= i < v@.len() ==> r@[i] == Stage::<LS, RS>::After(v@[i]),
{
    let mut r: Vec<Stage<LS, RS>> = Vec::new();
    let mut i: usize = 0;
    while i < v.len()
        invariant
            i <= v@.len(),
            r@.len() == i,
            forall|t: int| 0 <= t < i ==> r@[t] == Stage::<LS, RS>::After(v@[t]),
        decreases v@.len() - i,
    {
        r.push(Stage::After(v[i]));
        i = i + 1;
    }
    r
}

impl<L: LazyNfa, R: LazyNfa> LazyNfa for ConcatNfa<L, R> {
    type State = Stage<L::State, R::State>;

    open spec fn wf(&self) -> bool {
        self.left.wf() && self.right.wf()
    }

    open spec fn spec_initial(&self) -> Set<Self::State> {
        Set::new(
            |s: Stage<L::State, R::State>|
                match s {
                    Stage::Before(l) => self.left.spec_initial().contains(l),
                    Stage::After(r) => self.right.spec_initial().contains(r)
                        && crate::lazy_nfa::spec_accepts_empty(&self.left),
                },
        )
    }

    open spec fn spec_accepted(&self, s: Self::State) -> bool {
        match s {
            Stage::Before(_) => false,
            Stage::After(r) => self.right.spec_accepted(r),
        }
    }

    open spec fn spec_step(&self, s: Self::State, c: char) -> Set<Self::State> {
        match s {
            Stage::Before(l) => Set::new(
                |y: Stage<L::State, R::State>|
                    match y {
                        Stage::Before(l2) => self.left.spec_step(l, c).contains(l2),
                        Stage::After(r2) => self.right.spec_initial().contains(r2)
                            && crate::lazy_nfa::spec_step_hits_accepting(&self.left, l, c),
                    },
            ),
            Stage::After(r) => Set::new(
                |y: Stage<L::State, R::State>|
                    match y {
                        Stage::Before(_) => false,
                        Stage::After(r2) => self.right.spec_step(r, c).contains(r2),
                    },
            ),
        }
    }

    open spec fn spec_ok(&self, s: Self::State, c: char) -> bool {
        match s {
            Stage::Before(l) => self.left.spec_ok(l, c),
            Stage::After(r) => self.right.spec_ok(r, c),
        }
    }

    open spec fn spec_sym_ok(&self, c: char) -> bool {
        self.left.spec_sym_ok(c) && self.right.spec_sym_ok(c)
    }

    proof fn lemma_sym_ok(&self, s: Self::State, c: char) {
        match s {
            Stage::Before(l) => self.left.lemma_sym_ok(l, c),
            Stage::After(r) => self.right.lemma_sym_ok(r, c),
        }
    }

    /// The left operand's start configurations, plus the right operand's
    /// whenever the left already accepts the empty prefix.
    fn initial_state(&self) -> (r: Vec<Self::State>) {
        let lv = self.left.initial_state();
        let mut out = map_stage_before::<L::State, R::State>(&lv);
        let start_right = any_accepted(&self.left, &lv);
        proof {
            if start_right {
                let i = choose|i: int|
                    0 <= i < lv@.len() && self.left.spec_accepted(#[trigger] lv@[i]);
                assert(lv@.contains(lv@[i]));
                assert(lv@.to_set().contains(lv@[i]));
            }
        }
        if start_right {
            let rv = self.right.initial_state();
            let mut rmapped = map_stage_after::<L::State, R::State>(&rv);
            out.append(&mut rmapped);
            proof {
                assert forall|y: Stage<L::State, R::State>| out@.contains(y)
                    implies self.spec_initial().contains(y) by {
                    let t = choose|t: int| 0 <= t < out@.len() && out@[t] == y;
                    if t < lv@.len() {
                        assert(out@[t] == Stage::<L::State, R::State>::Before(lv@[t]));
                        assert(lv@.to_set().contains(lv@[t]));
                    } else {
                        assert(out@[t] == Stage::<L::State, R::State>::After(rv@[t - lv@.len()]));
                        assert(rv@.to_set().contains(rv@[t - lv@.len()]));
                    }
                }
                assert forall|y: Stage<L::State, R::State>| self.spec_initial().contains(y)
                    implies out@.contains(y) by {
                    match y {
                        Stage::Before(l) => {
                            assert(lv@.to_set().contains(l));
                            let t = choose|t: int| 0 <= t < lv@.len() && lv@[t] == l;
                            assert(out@[t] == y);
                        },
                        Stage::After(r2) => {
                            assert(rv@.to_set().contains(r2));
                            let t = choose|t: int| 0 <= t < rv@.len() && rv@[t] == r2;
                            assert(out@[lv@.len() + t] == y);
                        },
                    }
                }
                assert(out@.to_set() =~= self.spec_initial());
                assert forall|a: int, b: int| 0 <= a < b < out@.len() implies out@[a] != out@[b] by {
                    if b < lv@.len() {
                        assert(lv@[a] != lv@[b]);
                    } else if a >= lv@.len() {
                        assert(rv@[a - lv@.len()] != rv@[b - lv@.len()]);
                    }
                }
            }
        } else {
            proof {
                assert forall|y: Stage<L::State, R::State>| out@.contains(y)
                    implies self.spec_initial().contains(y) by {
                    let t = choose|t: int| 0 <= t < out@.len() && out@[t] == y;
                    assert(out@[t] == Stage::<L::State, R::State>::Before(lv@[t]));
                    assert(lv@.to_set().contains(lv@[t]));
                }
                assert forall|y: Stage<L::State, R::State>| self.spec_initial().contains(y)
                    implies out@.contains(y) by {
                    match y {
                        Stage::Before(l) => {
                            assert(lv@.to_set().contains(l));
                            let t = choose|t: int| 0 <= t < lv@.len() && lv@[t] == l;
                            assert(out@[t] == y);
                        },
                        Stage::After(_) => {
                            let l = choose|l: L::State|
                                #[trigger] self.left.spec_initial().contains(l)
                                    && self.left.spec_accepted(l);
                            assert(lv@.to_set().contains(l));
                            assert(lv@.contains(l));
                            let t = choose|t: int| 0 <= t < lv@.len() && lv@[t] == l;
                            assert(false);
                        },
                    }
                }
                assert(out@.to_set() =~= self.spec_initial());
                assert forall|a: int, b: int| 0 <= a < b < out@.len() implies out@[a] != out@[b] by {
                    assert(lv@[a] != lv@[b]);
                }
            }
        }
        out
    }

    fn accepted(&self, s: &Self::State) -> (b: bool) {
        match s {
            Stage::Before(_) => false,
            Stage::After(r) => self.right.accepted(r),
        }
    }

    /// Inside the left operand: advance it, and wherever it has just
    /// accepted, also activate the right operand's start configurations.
    /// Inside the right operand: advance it.
    fn advance(&self, s: &Self::State, c: char) -> (r: Result<Vec<Self::State>, UnknownSymbol>) {
        match s {
            Stage::Before(l) => {
                match self.left.advance(l, c) {
                    Ok(v) => {
                        let mut out = map_stage_before::<L::State, R::State>(&v);
                        let start_right = any_accepted(&self.left, &v);
                        proof {
                            if start_right {
                                let i = choose|i: int|
                                    0 <= i < v@.len() && self.left.spec_accepted(#[trigger] v@[i]);
                                assert(v@.contains(v@[i]));
                                assert(v@.to_set().contains(v@[i]));
                            }
                        }
                        if start_right {
                            let rv = self.right.initial_state();
                            let mut rmapped = map_stage_after::<L::State, R::State>(&rv);
                            out.append(&mut rmapped);
                            proof {
                                assert forall|y: Stage<L::State, R::State>| out@.contains(y)
                                    implies self.spec_step(*s, c).contains(y) by {
                                    let t = choose|t: int| 0 <= t < out@.len() && out@[t] == y;
                                    if t < v@.len() {
                                        assert(out@[t] == Stage::<L::State, R::State>::Before(
                                            v@[t],
                                        ));
                                        assert(v@.to_set().contains(v@[t]));
                                    } else {
                                        assert(out@[t] == Stage::<L::State, R::State>::After(
                                            rv@[t - v@.len()],
                                        ));
                                        assert(rv@.to_set().contains(rv@[t - v@.len()]));
                                    }
                                }
                                assert forall|y: Stage<L::State, R::State>| self.spec_step(
                                    *s,
                                    c,
                                ).contains(y) implies out@.contains(y) by {
                                    match y {
                                        Stage::Before(l2) => {
                                            assert(v@.to_set().contains(l2));
                                            let t = choose|t: int|
                                                0 <= t < v@.len() && v@[t] == l2;
                                            assert(out@[t] == y);
                                        },
                                        Stage::After(r2) => {
                                            assert(rv@.to_set().contains(r2));
                                            let t = choose|t: int|
                                                0 <= t < rv@.len() && rv@[t] == r2;
                                            assert(out@[v@.len() + t] == y);
                                        },
                                    }
                                }
                                assert(out@.to_set() =~= self.spec_step(*s, c));
                                assert forall|a: int, b: int| 0 <= a < b < out@.len()
                                    implies out@[a] != out@[b] by {
                                    if b < v@.len() {
                                        assert(v@[a] != v@[b]);
                                    } else if a >= v@.len() {
                                        assert(rv@[a - v@.len()] != rv@[b - v@.len()]);
                                    }
                                }
                            }
                        } else {
                            proof {
                                assert forall|y: Stage<L::State, R::State>| out@.contains(y)
                                    implies self.spec_step(*s, c).contains(y) by {
                                    let t = choose|t: int| 0 <= t < out@.len() && out@[t] == y;
                                    assert(out@[t] == Stage::<L::State, R::State>::Before(v@[t]));
                                    assert(v@.to_set().contains(v@[t]));
                                }
                                assert forall|y: Stage<L::State, R::State>| self.spec_step(
                                    *s,
                                    c,
                                ).contains(y) implies out@.contains(y) by {
                                    match y {
                                        Stage::Before(l2) => {
                                            assert(v@.to_set().contains(l2));
                                            let t = choose|t: int|
                                                0 <= t < v@.len() && v@[t] == l2;
                                            assert(out@[t] == y);
                                        },
                                        Stage::After(_) => {
                                            let l2 = choose|l2: L::State|
                                                #[trigger] self.left.spec_step(*l, c).contains(l2)
                                                    && self.left.spec_accepted(l2);
                                            assert(v@.to_set().contains(l2));
                                            assert(v@.contains(l2));
                                            let t = choose|t: int|
                                                0 <= t < v@.len() && v@[t] == l2;
                                            assert(false);
                                        },
                                    }
                                }
                                assert(out@.to_set() =~= self.spec_step(*s, c));
                                assert forall|a: int, b: int| 0 <= a < b < out@.len()
                                    implies out@[a] != out@[b] by {
                                    assert(v@[a] != v@[b]);
                                }
                            }
                        }
                        Ok(out)
                    },
                    Err(e) => Err(e),
                }
            },
            Stage::After(r2) => {
                match self.right.advance(r2, c) {
                    Ok(v) => {
                        let out = map_stage_after::<L::State, R::State>(&v);
                        proof {
                            assert forall|y: Stage<L::State, R::State>| out@.contains(y)
                                implies self.spec_step(*s, c).contains(y) by {
                                let t = choose|t: int| 0 <= t < out@.len() && out@[t] == y;
                                assert(out@[t] == Stage::<L::State, R::State>::After(v@[t]));
                                assert(v@.to_set().contains(v@[t]));
                            }
                            assert forall|y: Stage<L::State, R::State>| self.spec_step(
                                *s,
                                c,
                            ).contains(y) implies out@.contains(y) by {
                                match y {
                                    Stage::Before(_) => {},
                                    Stage::After(y2) => {
                                        assert(v@.to_set().contains(y2));
                                        let t = choose|t: int| 0 <= t < v@.len() && v@[t] == y2;
                                        assert(out@[t] == y);
                                    },
                                }
                            }
                            assert(out@.to_set() =~= self.spec_step(*s, c));
                        }
                        Ok(out)
                    },
                    Err(e) => Err(e),
                }
            },
        }
    }
}

/// `v` re-tagged elementwise as fresh start-of-iteration states.
fn map_iter_fresh<S: Copy>(v: &Vec<S>) -> (r: Vec<Iteration<S>>)
    ensures
        r@.len() == v@.len(),
        forall|i: int| 0 <= i < v@.len() ==> r@[i] == Iteration::Fresh(v@[i]),
{
    let mut r: Vec<Iteration<S>> = Vec::new();
    let mut i: usize = 0;
    while i < v.len()
        invariant
            i <= v@.len(),
            r@.len() == i,
            forall|t: int| 0 <= t < i ==> r@[t] == Iteration::Fresh(v@[t]),
        decreases v@.len() - i,
    {
        r.push(Iteration::Fresh(v[i]));
        i = i + 1;
    }
    r
}

/// `v` re-tagged elementwise as mid-iteration states.
fn map_iter_mid<S: Copy>(v: &Vec<S>) -> (r: Vec<Iteration<S>>)
    ensures
        r@.len() == v@.len(),
        forall|i: int| 0 <= i < v@.len() ==> r@[i] == Iteration::Mid(v@[i]),
{
    let mut r: Vec<Iteration<S>> = Vec::new();
    let mut i: usize = 0;
    while i < v.len()
        invariant
            i <= v@.len(),
            r@.len() == i,
            forall|t: int| 0 <= t < i ==> r@[t] == Iteration::Mid(v@[t]),
        decreases v@.len() - i,
    {
        r.push(Iteration::Mid(v[i]));
        i = i + 1;
    }
    r
}

impl<I: LazyNfa> LazyNfa for StarNfa<I> {
    type State = Iteration<I::State>;

    open spec fn wf(&self) -> bool {
        self.inner.wf()
    }

    open spec fn spec_initial(&self) -> Set<Self::State> {
        Set::new(
            |s: Iteration<I::State>|
                match s {
                    Iteration::Fresh(x) => self.inner.spec_initial().contains(x),
                    Iteration::Mid(_) => false,
                },
        )
    }

    open spec fn spec_accepted(&self, s: Self::State) -> bool {
        match s {
            Iteration::Fresh(_) => true,
            Iteration::Mid(x) => self.inner.spec_accepted(x),
        }
    }

    open spec fn spec_step(&self, s: Self::State, c: char) -> Set<Self::State> {
        let x = match s {
            Iteration::Fresh(x) => x,
            Iteration::Mid(x) => x,
        };
        Set::new(
            |y: Iteration<I::State>|
                match y {
                    Iteration::Mid(y2) => self.inner.spec_step(x, c).contains(y2),
                    Iteration::Fresh(y2) => self.inner.spec_initial().contains(y2)
                        && crate::lazy_nfa::spec_step_hits_accepting(&self.inner, x, c),
                },
        )
    }

    open spec fn spec_ok(&self, s: Self::State, c: char) -> bool {
        match s {
            Iteration::Fresh(x) => self.inner.spec_ok(x, c),
            Iteration::Mid(x) => self.inner.spec_ok(x, c),
        }
    }

    open spec fn spec_sym_ok(&self, c: char) -> bool {
        self.inner.spec_sym_ok(c)
    }

    proof fn lemma_sym_ok(&self, s: Self::State, c: char) {
        match s {
            Iteration::Fresh(x) => self.inner.lemma_sym_ok(x, c),
            Iteration::Mid(x) => self.inner.lemma_sym_ok(x, c),
        }
    }

    /// The inner automaton's start configurations, fresh: the empty
    /// iteration is accepting.
    fn initial_state(&self) -> (r: Vec<Self::State>) {
        let iv = self.inner.initial_state();
        let out = map_iter_fresh(&iv);
        proof {
            assert forall|y: Iteration<I::State>| out@.contains(y)
                implies self.spec_initial().contains(y) by {
                let t = choose|t: int| 0 <= t < out@.len() && out@[t] == y;
                assert(out@[t] == Iteration::Fresh(iv@[t]));
                assert(iv@.to_set().contains(iv@[t]));
            }
            assert forall|y: Iteration<I::State>| self.spec_initial().contains(y)
                implies out@.contains(y) by {
                match y {
                    Iteration::Fresh(x) => {
                        assert(iv@.to_set().contains(x));
                        let t = choose|t: int| 0 <= t < iv@.len() && iv@[t] == x;
                        assert(out@[t] == y);
                    },
                    Iteration::Mid(_) => {},
                }
            }
            assert(out@.to_set() =~= self.spec_initial());
        }
        out
    }

    fn accepted(&self, s: &Self::State) -> (b: bool) {
        match s {
            Iteration::Fresh(_) => true,
            Iteration::Mid(x) => self.inner.accepted(x),
        }
    }

    /// Advances the inner automaton; wherever it has just accepted, the
    /// inner start configurations also become active again, fresh, so a
    /// new iteration may begin — while the non-looped successors stay.
    fn advance(&self, s: &Self::State, c: char) -> (r: Result<Vec<Self::State>, UnknownSymbol>) {
        let x = match s {
            Iteration::Fresh(x) => *x,
            Iteration::Mid(x) => *x,
        };
        match self.inner.advance(&x, c) {
            Ok(v) => {
                let mut out = map_iter_mid(&v);
                let loop_back = any_accepted(&self.inner, &v);
                proof {
                    if loop_back {
                        let i = choose|i: int|
                            0 <= i < v@.len() && self.inner.spec_accepted(#[trigger] v@[i]);
                        assert(v@.contains(v@[i]));
                        assert(v@.to_set().contains(v@[i]));
                    }
                }
                if loop_back {
                    let iv = self.inner.initial_state();
                    let mut fresh = map_iter_fresh(&iv);
                    out.append(&mut fresh);
                    proof {
                        assert forall|y: Iteration<I::State>| out@.contains(y)
                            implies self.spec_step(*s, c).contains(y) by {
                            let t = choose|t: int| 0 <= t < out@.len() && out@[t] == y;
                            if t < v@.len() {
                                assert(out@[t] == Iteration::Mid(v@[t]));
                                assert(v@.to_set().contains(v@[t]));
                            } else {
                                assert(out@[t] == Iteration::Fresh(iv@[t - v@.len()]));
                                assert(iv@.to_set().contains(iv@[t - v@.len()]));
                            }
                        }
                        assert forall|y: Iteration<I::State>| self.spec_step(*s, c).contains(y)
                            implies out@.contains(y) by {
                            match y {
                                Iteration::Mid(y2) => {
                                    assert(v@.to_set().contains(y2));
                                    let t = choose|t: int| 0 <= t < v@.len() && v@[t] == y2;
                                    assert(out@[t] == y);
                                },
                                Iteration::Fresh(y2) => {
                                    assert(iv@.to_set().contains(y2));
                                    let t = choose|t: int| 0 <= t < iv@.len() && iv@[t] == y2;
                                    assert(out@[v@.len() + t] == y);
                                },
                            }
                        }
                        assert(out@.to_set() =~= self.spec_step(*s, c));
                        assert forall|a: int, b: int| 0 <= a < b < out@.len() implies out@[a]
                            != out@[b] by {
                            if b < v@.len() {
                                assert(v@[a] != v@[b]);
                            } else if a >= v@.len() {
                                assert(iv@[a - v@.len()] != iv@[b - v@.len()]);
                            }
                        }
                    }
                } else {
                    proof {
                        assert forall|y: Iteration<I::State>| out@.contains(y)
                            implies self.spec_step(*s, c).contains(y) by {
                            let t = choose|t: int| 0 <= t < out@.len() && out@[t] == y;
                            assert(out@[t] == Iteration::Mid(v@[t]));
                            assert(v@.to_set().contains(v@[t]));
                        }
                        assert forall|y: Iteration<I::State>| self.spec_step(*s, c).contains(y)
                            implies out@.contains(y) by {
                            match y {
                                Iteration::Mid(y2) => {
                                    assert(v@.to_set().contains(y2));
                                    let t = choose|t: int| 0 <= t < v@.len() && v@[t] == y2;
                                    assert(out@[t] == y);
                                },
                                Iteration::Fresh(_) => {
                                    let z = choose|z: I::State|
                                        #[trigger] self.inner.spec_step(x, c).contains(z)
                                            && self.inner.spec_accepted(z);
                                    assert(v@.to_set().contains(z));
                                    assert(v@.contains(z));
                                    let t = choose|t: int| 0 <= t < v@.len() && v@[t] == z;
                                    assert(false);
                                },
                            }
                        }
                        assert(out@.to_set() =~= self.spec_step(*s, c));
                        assert forall|a: int, b: int| 0 <= a < b < out@.len() implies out@[a]
                            != out@[b] by {
                            assert(v@[a] != v@[b]);
                        }
                    }
                }
                Ok(out)
            },
            Err(e) => Err(e),
        }
    }
}

} // verus!
