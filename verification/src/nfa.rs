//! The explicit nondeterministic automaton: a fixed array of state
//! records, each with an `initial` flag, an `accepted` flag, and edges
//! labelled by a symbol or by epsilon. Construction validates alphabet
//! membership and index bounds; `run` simulates by a fresh subset step
//! per input symbol.

use vstd::prelude::*;

use crate::error::MatchError;
use crate::error::UnknownSymbol;
use crate::error::ValidationError;
use crate::lazy_nfa::LazyNfa;

verus! {

/// One state record of an explicit nondeterministic automaton. An edge
/// labelled `None` is an epsilon edge; `Some(c)` consumes `c`.
pub struct State {
    pub initial: bool,
    pub accepted: bool,
    pub transitions: Vec<(Option<char>, Vec<usize>)>,
}

impl State {
    /// A fresh state: not initial, not accepting, no edges.
    pub fn new() -> (s: State)
        ensures
            s.initial == false,
            s.accepted == false,
            s.transitions@.len() == 0,
    {
        State { initial: false, accepted: false, transitions: Vec::new() }
    }
}

/// `y` is a destination of one of `st`'s edges labelled `k`.
pub open spec fn spec_edge(st: State, k: Option<char>, y: usize) -> bool {
    exists|e: int, j: int|
        #![trigger st.transitions@[e].1@[j]]
        0 <= e < st.transitions@.len() && st.transitions@[e].0 == k && 0 <= j
            < st.transitions@[e].1@.len() && st.transitions@[e].1@[j] == y
}

/// What construction validates: every symbol labelling an edge belongs to
/// the alphabet, and every destination is a state index.
pub open spec fn spec_valid_nfa(alphabet: Seq<char>, states: Seq<State>) -> bool {
    forall|x: int, e: int|
        #![trigger states[x].transitions@[e]]
        0 <= x < states.len() && 0 <= e < states[x].transitions@.len() ==> {
            &&& (states[x].transitions@[e].0 matches Some(c) ==> alphabet.contains(c))
            &&& forall|j: int|
                0 <= j < states[x].transitions@[e].1@.len() ==> (
                #[trigger] states[x].transitions@[e].1@[j]) < states.len()
        }
}

/// The explicit nondeterministic automaton.
pub struct Nfa {
    alphabet: Vec<char>,
    states: Vec<State>,
}

impl Nfa {
    /// The declared alphabet, as given at construction.
    pub closed spec fn spec_alpha(self) -> Seq<char> {
        self.alphabet@
    }

    /// The state records, as given at construction.
    pub closed spec fn spec_states(self) -> Seq<State> {
        self.states@
    }

    /// The declared alphabet as a set.
    pub open spec fn spec_alphabet(self) -> Set<char> {
        Set::new(|c: char| self.spec_alpha().contains(c))
    }

    /// Number of states.
    pub open spec fn spec_size(self) -> int {
        self.spec_states().len() as int
    }

    /// The construction-time invariant.
    pub open spec fn wf(self) -> bool {
        spec_valid_nfa(self.spec_alpha(), self.spec_states())
    }

    /// The automaton holds at least one epsilon edge.
    pub open spec fn spec_has_eps(self) -> bool {
        exists|x: int, e: int|
            #![trigger self.spec_states()[x].transitions@[e]]
            0 <= x < self.spec_states().len() && 0 <= e
                < self.spec_states()[x].transitions@.len()
                && self.spec_states()[x].transitions@[e].0 is None
    }

    /// The set of flagged-initial state indices.
    pub open spec fn spec_initial_set(self) -> Set<usize> {
        Set::new(|x: usize| x < self.spec_states().len() && self.spec_states()[x as int].initial)
    }

    /// One subset step: every state reachable from a member of `s` by an
    /// edge consuming `c`.
    pub open spec fn spec_step_set(self, s: Set<usize>, c: char) -> Set<usize> {
        Set::new(
            |y: usize|
                exists|x: usize|
                    #[trigger] s.contains(x) && x < self.spec_states().len() && spec_edge(
                        self.spec_states()[x as int],
                        Some(c),
                        y,
                    ),
        )
    }

    /// The active set after consuming all of `w` starting from `s`.
    pub open spec fn spec_reach(self, s: Set<usize>, w: Seq<char>) -> Set<usize>
        decreases w.len(),
    {
        if w.len() == 0 {
            s
        } else {
            self.spec_reach(self.spec_step_set(s, w[0]), w.drop_first())
        }
    }

    /// The active set holds at least one accepting index.
    pub open spec fn spec_accepting(self, s: Set<usize>) -> bool {
        exists|x: usize|
            #[trigger] s.contains(x) && x < self.spec_states().len() && self.spec_states()[
                x as int
            ].accepted
    }

    /// Builds the automaton after validating it; construction succeeds
    /// exactly on valid parts, which are then taken over unchanged.
    pub fn new(alphabet: Vec<char>, states: Vec<State>) -> (r: Result<Nfa, ValidationError>)
        ensures
            r is Ok <==> spec_valid_nfa(alphabet@, states@),
            r matches Ok(n) ==> n.spec_alpha() == alphabet@ && n.spec_states() == states@,
            r matches Err(e) ==> spec_nfa_error_fits(e, alphabet@, states@),
    {
        let nfa = Nfa { alphabet, states };
        match nfa.check_invariant() {
            Ok(()) => Ok(nfa),
            Err(e) => Err(e),
        }
    }

    /// Checks the data-model invariant: symbols on edges belong to the
    /// alphabet and destinations are in range.
    fn check_invariant(&self) -> (r: Result<(), ValidationError>)
        ensures
            r is Ok <==> spec_valid_nfa(self.spec_alpha(), self.spec_states()),
            r matches Err(e) ==> spec_nfa_error_fits(e, self.spec_alpha(), self.spec_states()),
    {
        let n = self.states.len();
        let mut x: usize = 0;
        while x < n
            invariant
                n == self.states@.len(),
                x <= n,
                forall|a: int, e: int|
                    #![trigger self.states@[a].transitions@[e]]
                    0 <= a < x && 0 <= e < self.states@[a].transitions@.len() ==> {
                        &&& (self.states@[a].transitions@[e].0 matches Some(c)
                            ==> self.alphabet@.contains(c))
                        &&& forall|j: int|
                            0 <= j < self.states@[a].transitions@[e].1@.len() ==> (
                            #[trigger] self.states@[a].transitions@[e].1@[j])
                                < self.states@.len()
                    },
            decreases n - x,
        {
            let m = self.states[x].transitions.len();
            let mut e: usize = 0;
            while e < m
                invariant
                    n == self.states@.len(),
                    x < n,
                    m == self.states@[x as int].transitions@.len(),
                    e <= m,
                    forall|ee: int|
                        #![trigger self.states@[x as int].transitions@[ee]]
                        0 <= ee < e ==> {
                            &&& (self.states@[x as int].transitions@[ee].0 matches Some(c)
                                ==> self.alphabet@.contains(c))
                            &&& forall|j: int|
                                0 <= j < self.states@[x as int].transitions@[ee].1@.len() ==> (
                                #[trigger] self.states@[x as int].transitions@[ee].1@[j])
                                    < self.states@.len()
                        },
                decreases m - e,
            {
                match self.states[x].transitions[e].0 {
                    Some(c) => {
                        if !contains_char(&self.alphabet, c) {
                            return Err(ValidationError::SymbolOutsideAlphabet { symbol: c });
                        }
                    },
                    None => {},
                }
                let t = self.states[x].transitions[e].1.len();
                let mut j: usize = 0;
                while j < t
                    invariant
                        n == self.states@.len(),
                        x < n,
                        e < self.states@[x as int].transitions@.len(),
                        t == self.states@[x as int].transitions@[e as int].1@.len(),
                        j <= t,
                        forall|a: int|
                            0 <= a < j ==> (#[trigger] self.states@[x as int].transitions@[
                                e as int
                            ].1@[a]) < self.states@.len(),
                    decreases t - j,
                {
                    let y = self.states[x].transitions[e].1[j];
                    if y >= n {
                        return Err(ValidationError::TargetOutOfRange { target: y, size: n });
                    }
                    j = j + 1;
                }
                e = e + 1;
            }
            x = x + 1;
        }
        Ok(())
    }

    /// Number of states.
    pub fn size(&self) -> (s: usize)
        ensures
            s == self.spec_states().len(),
    {
        self.states.len()
    }

    /// The declared alphabet, in declaration order.
    pub fn alphabet(&self) -> (r: Vec<char>)
        ensures
            r@ == self.spec_alpha(),
    {
        let mut r: Vec<char> = Vec::new();
        let mut k: usize = 0;
        while k < self.alphabet.len()
            invariant
                k <= self.alphabet@.len(),
                r@ == self.alphabet@.take(k as int),
            decreases self.alphabet@.len() - k,
        {
            r.push(self.alphabet[k]);
            proof {
                assert(self.alphabet@.take(k as int).push(self.alphabet@[k as int])
                    =~= self.alphabet@.take(k as int + 1));
            }
            k = k + 1;
        }
        proof {
            assert(self.alphabet@.take(self.alphabet@.len() as int) =~= self.alphabet@);
        }
        r
    }

    /// Adds one `c`-labelled edge from `x` to `y`, after checking that the
    /// symbol and both endpoints are legal and that the edge is new; the
    /// automaton is unchanged on any error. Every edge other than the new
    /// one is exactly preserved.
    pub fn add_transition(&mut self, c: Option<char>, x: usize, y: usize) -> (r: Result<
        (),
        ValidationError,
    >)
        requires
            old(self).wf(),
        ensures
            final(self).wf(),
            final(self).spec_alpha() == old(self).spec_alpha(),
            r is Ok <==> ((c matches Some(cc) ==> old(self).spec_alpha().contains(cc)) && x < old(
                self,
            ).spec_states().len() && y < old(self).spec_states().len() && !spec_edge(
                old(self).spec_states()[x as int],
                c,
                y,
            )),
            r is Err ==> *final(self) == *old(self),
            r matches Err(e) ==> match e {
                ValidationError::SymbolOutsideAlphabet { symbol } => c == Some(symbol) && !old(
                    self,
                ).spec_alpha().contains(symbol),
                ValidationError::StateOutOfRange { state, size } => (state == x || state == y)
                    && state >= size && size == old(self).spec_states().len(),
                ValidationError::DuplicateEdge { from, to } => from == x && to == y && x < old(
                    self,
                ).spec_states().len() && spec_edge(old(self).spec_states()[x as int], c, y),
                _ => false,
            },
            r is Ok ==> {
                &&& final(self).spec_states().len() == old(self).spec_states().len()
                &&& forall|i: int|
                    0 <= i < old(self).spec_states().len() && i != x ==> final(self).spec_states()[
                        i
                    ] == old(self).spec_states()[i]
                &&& final(self).spec_states()[x as int].initial == old(self).spec_states()[
                    x as int
                ].initial
                &&& final(self).spec_states()[x as int].accepted == old(self).spec_states()[
                    x as int
                ].accepted
                &&& forall|k: Option<char>, t: usize|
                    spec_edge(final(self).spec_states()[x as int], k, t) <==> (spec_edge(
                        old(self).spec_states()[x as int],
                        k,
                        t,
                    ) || (k == c && t == y))
            },
    {
        match c {
            Some(cc) => {
                if !contains_char(&self.alphabet, cc) {
                    return Err(ValidationError::SymbolOutsideAlphabet { symbol: cc });
                }
            },
            None => {},
        }
        let n = self.states.len();
        if x >= n {
            return Err(ValidationError::StateOutOfRange { state: x, size: n });
        }
        if y >= n {
            return Err(ValidationError::StateOutOfRange { state: y, size: n });
        }
        if state_has_edge(&self.states[x], c, y) {
            return Err(ValidationError::DuplicateEdge { from: x, to: y });
        }
        let ghost old_nfa = *self;
        state_push_edge(&mut self.states[x], c, y);
        proof {
            let olds = old_nfa.spec_states();
            let news = self.spec_states();
            assert forall|k: Option<char>, t: usize|
                spec_edge(news[x as int], k, t) <==> (spec_edge(olds[x as int], k, t) || (k == c
                    && t == y)) by {
                let st_old = olds[x as int];
                let st_new = news[x as int];
                let last = st_old.transitions@.len() as int;
                if spec_edge(st_old, k, t) {
                    let (e, j) = choose|e: int, j: int|
                        #![trigger st_old.transitions@[e].1@[j]]
                        0 <= e < st_old.transitions@.len() && st_old.transitions@[e].0 == k && 0
                            <= j < st_old.transitions@[e].1@.len() && st_old.transitions@[e].1@[j]
                            == t;
                    assert(st_new.transitions@[e].1@[j] == t);
                    assert(spec_edge(st_new, k, t));
                }
                if k == c && t == y {
                    assert(st_new.transitions@[last].1@[0] == y);
                    assert(spec_edge(st_new, k, t));
                }
                if spec_edge(st_new, k, t) {
                    let (e, j) = choose|e: int, j: int|
                        #![trigger st_new.transitions@[e].1@[j]]
                        0 <= e < st_new.transitions@.len() && st_new.transitions@[e].0 == k && 0
                            <= j < st_new.transitions@[e].1@.len() && st_new.transitions@[e].1@[j]
                            == t;
                    if e < last {
                        assert(st_old.transitions@[e].1@[j] == t);
                        assert(spec_edge(st_old, k, t));
                    } else {
                        assert(k == c && t == y);
                    }
                }
            }
            assert forall|a: int, e: int|
                #![trigger news[a].transitions@[e]]
                0 <= a < news.len() && 0 <= e < news[a].transitions@.len() implies {
                &&& (news[a].transitions@[e].0 matches Some(cs) ==> self.spec_alpha().contains(cs))
                &&& forall|j: int|
                    0 <= j < news[a].transitions@[e].1@.len() ==> (#[trigger] news[a].transitions@[
                        e
                    ].1@[j]) < news.len()
            } by {
                if a == x && e == olds[a].transitions@.len() {
                    assert(news[a].transitions@[e].1@ =~= seq![y]);
                } else {
                    assert(news[a].transitions@[e] == olds[a].transitions@[e]);
                    assert(spec_valid_nfa(old_nfa.spec_alpha(), olds));
                }
            }
        }
        Ok(())
    }

    /// Appends a fresh state (not initial, not accepting, no edges).
    pub fn add_state(&mut self) -> (r: Result<usize, ValidationError>)
        requires
            old(self).wf(),
        ensures
            final(self).wf(),
            final(self).spec_alpha() == old(self).spec_alpha(),
            final(self).spec_states().len() == old(self).spec_states().len() + 1,
            forall|i: int|
                0 <= i < old(self).spec_states().len() ==> final(self).spec_states()[i] == old(
                    self,
                ).spec_states()[i],
            final(self).spec_states().last().initial == false,
            final(self).spec_states().last().accepted == false,
            final(self).spec_states().last().transitions@.len() == 0,
            r == Ok::<usize, ValidationError>((old(self).spec_states().len() as usize)),
    {
        let idx = self.states.len();
        self.states.push(State::new());
        proof {
            let olds = old(self).spec_states();
            let news = self.spec_states();
            assert forall|a: int, e: int|
                #![trigger news[a].transitions@[e]]
                0 <= a < news.len() && 0 <= e < news[a].transitions@.len() implies {
                &&& (news[a].transitions@[e].0 matches Some(cs) ==> self.spec_alpha().contains(cs))
                &&& forall|j: int|
                    0 <= j < news[a].transitions@[e].1@.len() ==> (#[trigger] news[a].transitions@[
                        e
                    ].1@[j]) < news.len()
            } by {
                if a < olds.len() {
                    assert(news[a] == olds[a]);
                    assert(spec_valid_nfa(old(self).spec_alpha(), olds));
                    assert forall|j: int|
                        0 <= j < news[a].transitions@[e].1@.len() implies (#[trigger] news[
                        a].transitions@[e].1@[j]) < news.len() by {
                        assert(olds[a].transitions@[e].1@[j] < olds.len());
                    }
                }
            }
        }
        Ok(idx)
    }

    /// The flagged-initial state indices, in ascending order without
    /// duplicates.
    pub fn initial_states(&self) -> (r: Vec<usize>)
        ensures
            forall|y: usize| r@.contains(y) <==> self.spec_initial_set().contains(y),
            forall|a: int, b: int| 0 <= a < b < r@.len() ==> r@[a] < r@[b],
            forall|i: int| 0 <= i < r@.len() ==> (#[trigger] r@[i]) < self.spec_states().len(),
    {
        let n = self.states.len();
        let mut r: Vec<usize> = Vec::new();
        let mut x: usize = 0;
        while x < n
            invariant
                n == self.states@.len(),
                x <= n,
                forall|y: usize|
                    r@.contains(y) <==> (y < x && self.spec_states()[y as int].initial),
                forall|a: int, b: int| 0 <= a < b < r@.len() ==> r@[a] < r@[b],
                forall|i: int| 0 <= i < r@.len() ==> (#[trigger] r@[i]) < x,
            decreases n - x,
        {
            if self.states[x].initial {
                let ghost before = r@;
                r.push(x);
                proof {
                    assert forall|y: usize| r@.contains(y) implies (y < x + 1
                        && self.spec_states()[y as int].initial) by {
                        let i = choose|i: int| 0 <= i < r@.len() && r@[i] == y;
                        if i < before.len() {
                            assert(before[i] == y);
                            assert(before.contains(y));
                        }
                    }
                    assert forall|y: usize| (y < x + 1 && self.spec_states()[y as int].initial)
                        implies r@.contains(y) by {
                        if y < x {
                            assert(before.contains(y));
                            let i = choose|i: int| 0 <= i < before.len() && before[i] == y;
                            assert(r@[i] == y);
                        } else {
                            assert(r@[before.len() as int] == y);
                        }
                    }
                }
            } else {
                proof {
                    assert forall|y: usize| (y < x + 1 && self.spec_states()[y as int].initial)
                        implies r@.contains(y) by {
                        if y < x {
                        } else {
                            assert(!self.spec_states()[x as int].initial);
                        }
                    }
                }
            }
            x = x + 1;
        }
        r
    }

    /// One subset step from the active indices `states` on the alphabet
    /// symbol `c`: the ascending duplicate-free list of every index some
    /// `c`-labelled edge reaches from a member of `states`.
    pub fn advance(&self, states: &Vec<usize>, c: char) -> (r: Vec<usize>)
        requires
            self.wf(),
            self.spec_alphabet().contains(c),
            forall|i: int|
                0 <= i < states@.len() ==> (#[trigger] states@[i]) < self.spec_states().len(),
        ensures
            forall|y: usize|
                r@.contains(y) <==> self.spec_step_set(states@.to_set(), c).contains(y),
            forall|a: int, b: int| 0 <= a < b < r@.len() ==> r@[a] < r@[b],
            forall|i: int| 0 <= i < r@.len() ==> (#[trigger] r@[i]) < self.spec_states().len(),
    {
        let n = self.states.len();
        let mut marks: Vec<bool> = Vec::new();
        let mut i: usize = 0;
        while i < n
            invariant
                i <= n,
                marks@.len() == i,
                forall|y: int| 0 <= y < i ==> !(#[trigger] marks@[y]),
            decreases n - i,
        {
            marks.push(false);
            i = i + 1;
        }
        let mut k: usize = 0;
        while k < states.len()
            invariant
                self.wf(),
                n == self.states@.len(),
                marks@.len() == n,
                k <= states@.len(),
                forall|i2: int|
                    0 <= i2 < states@.len() ==> (#[trigger] states@[i2])
                        < self.spec_states().len(),
                forall|y: usize|
                    y < n ==> (marks@[y as int] <==> exists|k2: int|
                        0 <= k2 < k && spec_edge(
                            self.spec_states()[states@[k2] as int],
                            Some(c),
                            y,
                        )),
            decreases states@.len() - k,
        {
            let x = states[k];
            let m = self.states[x].transitions.len();
            let mut e: usize = 0;
            while e < m
                invariant
                    self.wf(),
                    n == self.states@.len(),
                    marks@.len() == n,
                    k < states@.len(),
                    x == states@[k as int],
                    x < n,
                    m == self.spec_states()[x as int].transitions@.len(),
                    e <= m,
                    forall|y: usize|
                        y < n ==> (marks@[y as int] <==> (exists|k2: int|
                            0 <= k2 < k && spec_edge(
                                self.spec_states()[states@[k2] as int],
                                Some(c),
                                y,
                            )) || (exists|e2: int, j2: int|
                            #![trigger self.spec_states()[x as int].transitions@[e2].1@[j2]]
                            0 <= e2 < e && self.spec_states()[x as int].transitions@[e2].0 == Some(
                                c,
                            ) && 0 <= j2 < self.spec_states()[x as int].transitions@[e2].1@.len()
                                && self.spec_states()[x as int].transitions@[e2].1@[j2] == y)),
                decreases m - e,
            {
                let is_c = match self.states[x].transitions[e].0 {
                    Some(cc) => cc == c,
                    None => false,
                };
                if is_c {
                    let t = self.states[x].transitions[e].1.len();
                    let mut j: usize = 0;
                    while j < t
                        invariant
                            self.wf(),
                            n == self.states@.len(),
                            marks@.len() == n,
                            k < states@.len(),
                            x == states@[k as int],
                            x < n,
                            e < self.spec_states()[x as int].transitions@.len(),
                            self.spec_states()[x as int].transitions@[e as int].0 == Some(c),
                            t == self.spec_states()[x as int].transitions@[e as int].1@.len(),
                            j <= t,
                            forall|y: usize|
                                y < n ==> (marks@[y as int] <==> (exists|k2: int|
                                    0 <= k2 < k && spec_edge(
                                        self.spec_states()[states@[k2] as int],
                                        Some(c),
                                        y,
                                    )) || (exists|e2: int, j2: int|
                                    #![trigger self.spec_states()[x as int].transitions@[e2].1@[j2]]
                                    0 <= e2 < e && self.spec_states()[x as int].transitions@[
                                        e2
                                    ].0 == Some(c) && 0 <= j2 < self.spec_states()[
                                        x as int
                                    ].transitions@[e2].1@.len() && self.spec_states()[
                                        x as int
                                    ].transitions@[e2].1@[j2] == y) || (exists|j2: int|
                                    0 <= j2 < j && self.spec_states()[x as int].transitions@[
                                        e as int
                                    ].1@[j2] == y)),
                        decreases t - j,
                    {
                        let y = self.states[x].transitions[e].1[j];
                        proof {
                            assert(self.spec_states()[x as int].transitions@[e as int].1@[j as int]
                                < self.spec_states().len());
                        }
                        let ghost before = marks@;
                        marks.set(y, true);
                        proof {
                            assert forall|y2: usize| y2 < n implies (marks@[y2 as int] <==> (
                            exists|k2: int|
                                0 <= k2 < k && spec_edge(
                                    self.spec_states()[states@[k2] as int],
                                    Some(c),
                                    y2,
                                )) || (exists|e2: int, j2: int|
                                #![trigger self.spec_states()[x as int].transitions@[e2].1@[j2]]
                                0 <= e2 < e && self.spec_states()[x as int].transitions@[e2].0
                                    == Some(c) && 0 <= j2 < self.spec_states()[
                                    x as int
                                ].transitions@[e2].1@.len() && self.spec_states()[
                                    x as int
                                ].transitions@[e2].1@[j2] == y2) || (exists|j2: int|
                                0 <= j2 <= j && self.spec_states()[x as int].transitions@[
                                    e as int
                                ].1@[j2] == y2)) by {
                                if y2 == y {
                                    assert(self.spec_states()[x as int].transitions@[e as int].1@[
                                        j as int
                                    ] == y2);
                                } else {
                                    assert(marks@[y2 as int] == before[y2 as int]);
                                }
                            }
                        }
                        j = j + 1;
                    }
                }
                proof {
                    assert forall|y: usize| y < n implies (marks@[y as int] <==> (exists|k2: int|
                        0 <= k2 < k && spec_edge(
                            self.spec_states()[states@[k2] as int],
                            Some(c),
                            y,
                        )) || (exists|e2: int, j2: int|
                        #![trigger self.spec_states()[x as int].transitions@[e2].1@[j2]]
                        0 <= e2 < e + 1 && self.spec_states()[x as int].transitions@[e2].0 == Some(
                            c,
                        ) && 0 <= j2 < self.spec_states()[x as int].transitions@[e2].1@.len()
                            && self.spec_states()[x as int].transitions@[e2].1@[j2] == y)) by {}
                }
                e = e + 1;
            }
            proof {
                assert forall|y: usize| y < n implies (marks@[y as int] <==> exists|k2: int|
                    0 <= k2 < k + 1 && spec_edge(
                        self.spec_states()[states@[k2] as int],
                        Some(c),
                        y,
                    )) by {
                    if marks@[y as int] {
                        if exists|e2: int, j2: int|
                            #![trigger self.spec_states()[x as int].transitions@[e2].1@[j2]]
                            0 <= e2 < m && self.spec_states()[x as int].transitions@[e2].0 == Some(
                                c,
                            ) && 0 <= j2 < self.spec_states()[x as int].transitions@[e2].1@.len()
                                && self.spec_states()[x as int].transitions@[e2].1@[j2] == y {
                            assert(spec_edge(self.spec_states()[states@[k as int] as int], Some(c), y));
                        }
                    } else {
                        assert(!exists|k2: int|
                            0 <= k2 < k && spec_edge(
                                self.spec_states()[states@[k2] as int],
                                Some(c),
                                y,
                            ));
                        if spec_edge(self.spec_states()[states@[k as int] as int], Some(c), y) {
                            let (e2, j2) = choose|e2: int, j2: int|
                                #![trigger self.spec_states()[x as int].transitions@[e2].1@[j2]]
                                0 <= e2 < self.spec_states()[x as int].transitions@.len()
                                    && self.spec_states()[x as int].transitions@[e2].0 == Some(c)
                                    && 0 <= j2 < self.spec_states()[x as int].transitions@[
                                    e2
                                ].1@.len() && self.spec_states()[x as int].transitions@[e2].1@[j2]
                                    == y;
                            assert(marks@[y as int]);
                        }
                    }
                }
            }
            k = k + 1;
        }
        let mut out: Vec<usize> = Vec::new();
        let mut y: usize = 0;
        while y < n
            invariant
                n == self.states@.len(),
                marks@.len() == n,
                y <= n,
                forall|t: usize| out@.contains(t) <==> (t < y && marks@[t as int]),
                forall|a: int, b: int| 0 <= a < b < out@.len() ==> out@[a] < out@[b],
                forall|i2: int| 0 <= i2 < out@.len() ==> (#[trigger] out@[i2]) < y,
            decreases n - y,
        {
            if marks[y] {
                let ghost before = out@;
                out.push(y);
                proof {
                    assert forall|t: usize| out@.contains(t) implies (t < y + 1
                        && marks@[t as int]) by {
                        let i2 = choose|i2: int| 0 <= i2 < out@.len() && out@[i2] == t;
                        if i2 < before.len() {
                            assert(before[i2] == t);
                            assert(before.contains(t));
                        }
                    }
                    assert forall|t: usize| (t < y + 1 && marks@[t as int]) implies out@.contains(
                        t,
                    ) by {
                        if t < y {
                            assert(before.contains(t));
                            let i2 = choose|i2: int| 0 <= i2 < before.len() && before[i2] == t;
                            assert(out@[i2] == t);
                        } else {
                            assert(out@[before.len() as int] == t);
                        }
                    }
                }
            }
            y = y + 1;
        }
        proof {
            assert forall|t: usize| out@.contains(t) <==> self.spec_step_set(
                states@.to_set(),
                c,
            ).contains(t) by {
                if out@.contains(t) {
                    let k2 = choose|k2: int|
                        0 <= k2 < states@.len() && spec_edge(
                            self.spec_states()[states@[k2] as int],
                            Some(c),
                            t,
                        );
                    assert(states@.contains(states@[k2]));
                    assert(states@.to_set().contains(states@[k2]));
                }
                if self.spec_step_set(states@.to_set(), c).contains(t) {
                    let x2 = choose|x2: usize|
                        #[trigger] states@.to_set().contains(x2) && x2 < self.spec_states().len()
                            && spec_edge(self.spec_states()[x2 as int], Some(c), t);
                    let k2 = choose|k2: int| 0 <= k2 < states@.len() && states@[k2] == x2;
                    assert(spec_edge(self.spec_states()[states@[k2] as int], Some(c), t));
                    assert(t < n);
                }
            }
        }
        out
    }

    /// Whether the active indices `states` hold an accepting one.
    pub fn is_accepted(&self, states: &Vec<usize>) -> (b: bool)
        requires
            forall|i: int|
                0 <= i < states@.len() ==> (#[trigger] states@[i]) < self.spec_states().len(),
        ensures
            b == self.spec_accepting(states@.to_set()),
    {
        let mut k: usize = 0;
        while k < states.len()
            invariant
                forall|i: int|
                    0 <= i < states@.len() ==> (#[trigger] states@[i])
                        < self.spec_states().len(),
                k <= states@.len(),
                forall|i: int|
                    0 <= i < k ==> !self.spec_states()[states@[i] as int].accepted,
            decreases states@.len() - k,
        {
            if self.states[states[k]].accepted {
                proof {
                    assert(states@.to_set().contains(states@[k as int]));
                }
                return true;
            }
            k = k + 1;
        }
        proof {
            assert forall|x: usize| !(#[trigger] states@.to_set().contains(x) && x
                < self.spec_states().len() && self.spec_states()[x as int].accepted) by {
                if states@.to_set().contains(x) {
                    let i = choose|i: int| 0 <= i < states@.len() && states@[i] == x;
                    assert(!self.spec_states()[states@[i] as int].accepted);
                }
            }
        }
        false
    }

    /// Epsilon-closure is a declared capability that is not yet available:
    /// this fails fast with an explicit signal and changes nothing.
    pub fn resolve_eps(&mut self) -> (r: Result<(), MatchError>)
        ensures
            *final(self) == *old(self),
            r == Err::<(), MatchError>(MatchError::UnsupportedFeature),
    {
        Err(MatchError::UnsupportedFeature)
    }

    /// Simulates the automaton over `input` by a fresh subset step per
    /// symbol, accepting iff an accepting index stays active at the end.
    /// An automaton with an epsilon edge fails fast (epsilon-closure is
    /// not yet available, and silently skipping such edges would be
    /// wrong); a symbol outside the alphabet fails at the position where
    /// it is first consumed.
    pub fn run(&self, input: &str) -> (r: Result<bool, MatchError>)
        requires
            self.wf(),
        ensures
            self.spec_has_eps() ==> r == Err::<bool, MatchError>(MatchError::UnsupportedFeature),
            !self.spec_has_eps() ==> {
                &&& r matches Ok(b) ==> (forall|i: int|
                    0 <= i < input@.len() ==> self.spec_alphabet().contains(#[trigger] input@[i]))
                    && b == self.spec_accepting(
                    self.spec_reach(self.spec_initial_set(), input@),
                )
                &&& r matches Err(e) ==> exists|p: int|
                    0 <= p < input@.len() && !self.spec_alphabet().contains(#[trigger] input@[p])
                        && (forall|j: int|
                        0 <= j < p ==> self.spec_alphabet().contains(#[trigger] input@[j])) && e
                        == (MatchError::UnknownSymbol { symbol: input@[p], position: p as usize })
                &&& (r is Err) == exists|i: int|
                    0 <= i < input@.len() && !self.spec_alphabet().contains(#[trigger] input@[i])
            },
    {
        if self.find_eps() {
            return Err(MatchError::UnsupportedFeature);
        }
        let n = input.unicode_len();
        let mut active = self.initial_states();
        proof {
            assert(active@.to_set() =~= self.spec_initial_set());
            assert(input@.take(0) =~= Seq::<char>::empty());
        }
        let mut i: usize = 0;
        while i < n
            invariant
                self.wf(),
                !self.spec_has_eps(),
                i <= n,
                n == input@.len(),
                forall|k: int|
                    0 <= k < active@.len() ==> (#[trigger] active@[k])
                        < self.spec_states().len(),
                active@.to_set() == self.spec_reach(
                    self.spec_initial_set(),
                    input@.take(i as int),
                ),
                forall|j: int| 0 <= j < i ==> self.spec_alphabet().contains(#[trigger] input@[j]),
            decreases n - i,
        {
            let c = input.get_char(i);
            if !contains_char(&self.alphabet, c) {
                return Err(MatchError::UnknownSymbol { symbol: c, position: i });
            }
            let next = self.advance(&active, c);
            proof {
                lemma_reach_push(*self, self.spec_initial_set(), input@.take(i as int), c);
                assert(input@.take(i as int).push(c) =~= input@.take(i as int + 1));
                assert(next@.to_set() =~= self.spec_step_set(active@.to_set(), c));
            }
            active = next;
            i = i + 1;
        }
        proof {
            assert(input@.take(n as int) =~= input@);
        }
        Ok(self.is_accepted(&active))
    }

    /// Whether any state holds an epsilon edge.
    fn find_eps(&self) -> (b: bool)
        ensures
            b == self.spec_has_eps(),
    {
        let n = self.states.len();
        let mut x: usize = 0;
        while x < n
            invariant
                n == self.states@.len(),
                x <= n,
                forall|a: int, e: int|
                    #![trigger self.spec_states()[a].transitions@[e]]
                    0 <= a < x && 0 <= e < self.spec_states()[a].transitions@.len()
                        ==> !(self.spec_states()[a].transitions@[e].0 is None),
            decreases n - x,
        {
            let m = self.states[x].transitions.len();
            let mut e: usize = 0;
            while e < m
                invariant
                    n == self.states@.len(),
                    x < n,
                    m == self.spec_states()[x as int].transitions@.len(),
                    e <= m,
                    forall|ee: int|
                        0 <= ee < e ==> !((#[trigger] self.spec_states()[x as int].transitions@[
                            ee
                        ]).0 is None),
                decreases m - e,
            {
                let is_eps = match self.states[x].transitions[e].0 {
                    None => true,
                    Some(_) => false,
                };
                if is_eps {
                    return true;
                }
                e = e + 1;
            }
            x = x + 1;
        }
        false
    }
}


/// The explicit automaton wrapped as an automaton capability, so the
/// matching engine and the combinators can drive it directly. Epsilon
/// edges are excluded by this view's well-formedness: epsilon-closure is
/// not yet available.
impl LazyNfa for Nfa {
    type State = usize;

    open spec fn wf(&self) -> bool {
        spec_valid_nfa(self.spec_alpha(), self.spec_states()) && !self.spec_has_eps()
    }

    open spec fn spec_initial(&self) -> Set<usize> {
        self.spec_initial_set()
    }

    open spec fn spec_accepted(&self, s: usize) -> bool {
        s < self.spec_states().len() && self.spec_states()[s as int].accepted
    }

    open spec fn spec_step(&self, s: usize, c: char) -> Set<usize> {
        Set::new(
            |y: usize|
                s < self.spec_states().len() && spec_edge(
                    self.spec_states()[s as int],
                    Some(c),
                    y,
                ),
        )
    }

    open spec fn spec_ok(&self, s: usize, c: char) -> bool {
        self.spec_alphabet().contains(c)
    }

    open spec fn spec_sym_ok(&self, c: char) -> bool {
        self.spec_alphabet().contains(c)
    }

    proof fn lemma_sym_ok(&self, s: usize, c: char) {
    }

    fn initial_state(&self) -> (r: Vec<usize>) {
        let r = self.initial_states();
        proof {
            assert(r@.to_set() =~= self.spec_initial_set());
        }
        r
    }

    fn accepted(&self, s: &usize) -> (b: bool) {
        if *s < self.states.len() {
            self.states[*s].accepted
        } else {
            false
        }
    }

    fn advance(&self, s: &usize, c: char) -> (r: Result<Vec<usize>, UnknownSymbol>) {
        if !contains_char(&self.alphabet, c) {
            return Err(UnknownSymbol { symbol: c });
        }
        if *s >= self.states.len() {
            let out: Vec<usize> = Vec::new();
            proof {
                assert(out@.to_set() =~= LazyNfa::spec_step(self, *s, c));
            }
            return Ok(out);
        }
        let mut from: Vec<usize> = Vec::new();
        from.push(*s);
        let out = self.advance(&from, c);
        proof {
            assert forall|y: usize| out@.contains(y) implies LazyNfa::spec_step(
                self,
                *s,
                c,
            ).contains(y) by {
                let x = choose|x: usize|
                    #[trigger] from@.to_set().contains(x) && x < self.spec_states().len()
                        && spec_edge(self.spec_states()[x as int], Some(c), y);
                assert(from@.contains(x));
                assert(x == *s);
            }
            assert forall|y: usize| LazyNfa::spec_step(self, *s, c).contains(y)
                implies out@.contains(y) by {
                assert(from@[0] == *s);
                assert(from@.contains(*s));
                assert(from@.to_set().contains(*s));
                assert(self.spec_step_set(from@.to_set(), c).contains(y));
            }
            assert(out@.to_set() =~= LazyNfa::spec_step(self, *s, c));
        }
        Ok(out)
    }
}

/// A construction error names a violation actually present in the parts.
pub open spec fn spec_nfa_error_fits(
    e: ValidationError,
    alphabet: Seq<char>,
    states: Seq<State>,
) -> bool {
    match e {
        ValidationError::SymbolOutsideAlphabet { symbol } => !alphabet.contains(symbol) && exists|
            x: int,
            t: int,
        |
            #![trigger states[x].transitions@[t]]
            0 <= x < states.len() && 0 <= t < states[x].transitions@.len()
                && states[x].transitions@[t].0 == Some(symbol),
        ValidationError::TargetOutOfRange { target, size } => size == states.len() && target
            >= size && exists|x: int, t: int, j: int|
            #![trigger states[x].transitions@[t].1@[j]]
            0 <= x < states.len() && 0 <= t < states[x].transitions@.len() && 0 <= j < states[
                x
            ].transitions@[t].1@.len() && states[x].transitions@[t].1@[j] == target,
        _ => false,
    }
}

/// Whether `v` holds `c`.
fn contains_char(v: &Vec<char>, c: char) -> (b: bool)
    ensures
        b == v@.contains(c),
{
    let mut i: usize = 0;
    while i < v.len()
        invariant
            i <= v@.len(),
            forall|k: int| 0 <= k < i ==> v@[k] != c,
        decreases v@.len() - i,
    {
        if v[i] == c {
            return true;
        }
        i = i + 1;
    }
    false
}

/// Whether state `st` already has a `c`-labelled edge to `y`.
fn state_has_edge(st: &State, c: Option<char>, y: usize) -> (b: bool)
    ensures
        b == spec_edge(*st, c, y),
{
    let m = st.transitions.len();
    let mut e: usize = 0;
    while e < m
        invariant
            m == st.transitions@.len(),
            e <= m,
            forall|e2: int, j2: int|
                #![trigger st.transitions@[e2].1@[j2]]
                0 <= e2 < e && st.transitions@[e2].0 == c && 0 <= j2 < st.transitions@[
                    e2
                ].1@.len() ==> st.transitions@[e2].1@[j2] != y,
        decreases m - e,
    {
        let matches_key = match (st.transitions[e].0, c) {
            (Some(a), Some(b)) => a == b,
            (None, None) => true,
            _ => false,
        };
        if matches_key {
            let t = st.transitions[e].1.len();
            let mut j: usize = 0;
            while j < t
                invariant
                    e < st.transitions@.len(),
                    st.transitions@[e as int].0 == c,
                    t == st.transitions@[e as int].1@.len(),
                    j <= t,
                    forall|j2: int| 0 <= j2 < j ==> st.transitions@[e as int].1@[j2] != y,
                decreases t - j,
            {
                if st.transitions[e].1[j] == y {
                    return true;
                }
                j = j + 1;
            }
        }
        e = e + 1;
    }
    proof {
        assert(!spec_edge(*st, c, y)) by {
            if spec_edge(*st, c, y) {
                let (e2, j2) = choose|e2: int, j2: int|
                    #![trigger st.transitions@[e2].1@[j2]]
                    0 <= e2 < st.transitions@.len() && st.transitions@[e2].0 == c && 0 <= j2
                        < st.transitions@[e2].1@.len() && st.transitions@[e2].1@[j2] == y;
                assert(false);
            }
        }
    }
    false
}

/// Appends a fresh `c`-labelled edge record with the single target `y`.
fn state_push_edge(st: &mut State, c: Option<char>, y: usize)
    ensures
        final(st).initial == old(st).initial,
        final(st).accepted == old(st).accepted,
        final(st).transitions@.len() == old(st).transitions@.len() + 1,
        forall|i: int|
            0 <= i < old(st).transitions@.len() ==> final(st).transitions@[i] == old(
                st,
            ).transitions@[i],
        final(st).transitions@.last().0 == c,
        final(st).transitions@.last().1@ =~= seq![y],
{
    let mut targets: Vec<usize> = Vec::new();
    targets.push(y);
    st.transitions.push((c, targets));
}

/// Consuming one more symbol applies one more subset step.
proof fn lemma_reach_push(n: Nfa, s: Set<usize>, w: Seq<char>, c: char)
    ensures
        n.spec_reach(s, w.push(c)) == n.spec_step_set(n.spec_reach(s, w), c),
    decreases w.len(),
{
    if w.len() == 0 {
        assert(w.push(c)[0] == c);
        assert(w.push(c).drop_first() =~= Seq::<char>::empty());
        assert(n.spec_reach(s, w.push(c)) == n.spec_reach(
            n.spec_step_set(s, c),
            Seq::<char>::empty(),
        ));
        assert(n.spec_reach(s, w) == s);
    } else {
        assert(w.push(c)[0] == w[0]);
        assert(w.push(c).drop_first() =~= w.drop_first().push(c));
        lemma_reach_push(n, n.spec_step_set(s, w[0]), w.drop_first(), c);
        assert(n.spec_reach(s, w.push(c)) == n.spec_reach(
            n.spec_step_set(s, w[0]),
            w.drop_first().push(c),
        ));
        assert(n.spec_reach(s, w) == n.spec_reach(n.spec_step_set(s, w[0]), w.drop_first()));
    }
}

} // verus!
