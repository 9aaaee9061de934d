//! The automaton capability and its composition combinators: any
//! automaton-like value exposes its initial configurations, an acceptance
//! test, and a single advance step; combinators build composite automata
//! over tagged composite states without ever materializing a product
//! state space. The matching engine drives any such value across an
//! input string.

use vstd::prelude::*;

use crate::error::MatchError;
use crate::error::UnknownSymbol;

verus! {

/// The automaton capability: a stateless interface of three operations
/// over an associated state-value type. Each operation's behaviour is
/// fixed by the spec-level model (`spec_initial`, `spec_accepted`,
/// `spec_step`) the implementation supplies.
pub trait LazyNfa: Sized {
    type State: Copy;

    /// What the other operations require of `self`.
    spec fn wf(&self) -> bool;

    /// The model of the nondeterministic start configuration.
    spec fn spec_initial(&self) -> Set<Self::State>;

    /// The model of acceptance: whether `s` is an accepting configuration.
    spec fn spec_accepted(&self, s: Self::State) -> bool;

    /// The model of one advance step: the successor configurations of `s`
    /// on `c`.
    spec fn spec_step(&self, s: Self::State, c: char) -> Set<Self::State>;

    /// Whether advancing from `s` on `c` succeeds (rather than failing
    /// with an unknown-symbol error).
    spec fn spec_ok(&self, s: Self::State, c: char) -> bool;

    /// Whether advancing on `c` succeeds from every configuration.
    spec fn spec_sym_ok(&self, c: char) -> bool;

    /// `spec_sym_ok` really does cover every configuration; each
    /// implementation proves this.
    proof fn lemma_sym_ok(&self, s: Self::State, c: char)
        requires
            self.wf(),
            self.spec_sym_ok(c),
        ensures
            self.spec_ok(s, c),
    ;

    /// The start configurations, without duplicates.
    fn initial_state(&self) -> (r: Vec<Self::State>)
        requires
            self.wf(),
        ensures
            r@.to_set() == self.spec_initial(),
            forall|a: int, b: int| 0 <= a < b < r@.len() ==> r@[a] != r@[b],
    ;

    /// Pure acceptance test; no side effects.
    fn accepted(&self, s: &Self::State) -> (b: bool)
        requires
            self.wf(),
        ensures
            b == self.spec_accepted(*s),
    ;

    /// One advance step. An empty result means this path dies; an error
    /// means the symbol is outside what this automaton recognizes.
    fn advance(&self, s: &Self::State, c: char) -> (r: Result<Vec<Self::State>, UnknownSymbol>)
        requires
            self.wf(),
        ensures
            (r is Ok) == self.spec_ok(*s, c),
            r matches Ok(v) ==> v@.to_set() == self.spec_step(*s, c) && (forall|a: int, b: int|
                0 <= a < b < v@.len() ==> v@[a] != v@[b]),
            r matches Err(e) ==> e == (UnknownSymbol { symbol: c }),
    ;
}

/// One subset step of the model: everything reachable from a member of
/// `s` by one `c`-step.
pub open spec fn spec_step_set<A: LazyNfa>(a: &A, s: Set<A::State>, c: char) -> Set<A::State> {
    Set::new(
        |y: A::State| exists|x: A::State| #[trigger] s.contains(x) && a.spec_step(x, c).contains(y),
    )
}

/// The model's active set after consuming all of `w` starting from `s`.
pub open spec fn spec_reach<A: LazyNfa>(a: &A, s: Set<A::State>, w: Seq<char>) -> Set<A::State>
    decreases w.len(),
{
    if w.len() == 0 {
        s
    } else {
        spec_reach(a, spec_step_set(a, s, w[0]), w.drop_first())
    }
}

/// Whether the automaton accepts `w`: some configuration active after all
/// of `w` is accepting.
pub open spec fn spec_accepts<A: LazyNfa>(a: &A, w: Seq<char>) -> bool {
    exists|x: A::State|
        #[trigger] spec_reach(a, a.spec_initial(), w).contains(x) && a.spec_accepted(x)
}

/// Whether the automaton accepts the empty string: some start
/// configuration is already accepting.
pub open spec fn spec_accepts_empty<A: LazyNfa>(a: &A) -> bool {
    exists|x: A::State| #[trigger] a.spec_initial().contains(x) && a.spec_accepted(x)
}

/// Whether one `c`-step from `s` reaches an accepting configuration.
pub open spec fn spec_step_hits_accepting<A: LazyNfa>(a: &A, s: A::State, c: char) -> bool {
    exists|z: A::State| #[trigger] a.spec_step(s, c).contains(z) && a.spec_accepted(z)
}

/// Consuming one more symbol applies one more subset step.
pub proof fn lemma_reach_push<A: LazyNfa>(a: &A, s: Set<A::State>, w: Seq<char>, c: char)
    ensures
        spec_reach(a, s, w.push(c)) == spec_step_set(a, spec_reach(a, s, w), c),
    decreases w.len(),
{
    if w.len() == 0 {
        assert(w.push(c)[0] == c);
        assert(w.push(c).drop_first() =~= Seq::<char>::empty());
        assert(spec_reach(a, s, w.push(c)) == spec_reach(
            a,
            spec_step_set(a, s, c),
            Seq::<char>::empty(),
        ));
        assert(spec_reach(a, s, w) == s);
    } else {
        assert(w.push(c)[0] == w[0]);
        assert(w.push(c).drop_first() =~= w.drop_first().push(c));
        lemma_reach_push(a, spec_step_set(a, s, w[0]), w.drop_first(), c);
        assert(spec_reach(a, s, w.push(c)) == spec_reach(
            a,
            spec_step_set(a, s, w[0]),
            w.drop_first().push(c),
        ));
        assert(spec_reach(a, s, w) == spec_reach(a, spec_step_set(a, s, w[0]), w.drop_first()));
    }
}

/// The matching engine: folds `advance` over `input` starting from
/// `initial_state`, carrying the set of active configurations, and
/// reports whether an accepting one remains at the end. A symbol no
/// active branch recognizes fails at the step where it is consumed,
/// naming the symbol and its position.
pub fn run_lazy<A: LazyNfa>(a: &A, input: &str) -> (r: Result<bool, MatchError>)
    requires
        a.wf(),
    ensures
        r matches Ok(b) ==> b == spec_accepts(a, input@),
        (forall|i: int| 0 <= i < input@.len() ==> a.spec_sym_ok(#[trigger] input@[i])) ==> r is Ok,
        r matches Err(e) ==> exists|p: int|
            0 <= p < input@.len() && e == (MatchError::UnknownSymbol {
                symbol: input@[p],
                position: p as usize,
            }) && (exists|s: A::State|
                #[trigger] spec_reach(a, a.spec_initial(), input@.take(p)).contains(s)
                    && !a.spec_ok(s, input@[p])) && (forall|j: int, t: A::State|
                0 <= j < p && #[trigger] spec_reach(a, a.spec_initial(), input@.take(j)).contains(
                    t,
                ) ==> a.spec_ok(t, input@[j])),
{
    let n = input.unicode_len();
    let mut active = a.initial_state();
    proof {
        assert(input@.take(0) =~= Seq::<char>::empty());
    }
    let mut i: usize = 0;
    while i < n
        invariant
            a.wf(),
            i <= n,
            n == input@.len(),
            active@.to_set() == spec_reach(a, a.spec_initial(), input@.take(i as int)),
            forall|j: int, t: A::State|
                0 <= j < i && #[trigger] spec_reach(a, a.spec_initial(), input@.take(j)).contains(
                    t,
                ) ==> a.spec_ok(t, input@[j]),
        decreases n - i,
    {
        let c = input.get_char(i);
        let ghost reach_here = spec_reach(a, a.spec_initial(), input@.take(i as int));
        let mut next: Vec<A::State> = Vec::new();
        let mut k: usize = 0;
        while k < active.len()
            invariant
                a.wf(),
                i < n,
                n == input@.len(),
                c == input@[i as int],
                k <= active@.len(),
                reach_here == spec_reach(a, a.spec_initial(), input@.take(i as int)),
                active@.to_set() == reach_here,
                forall|j: int, t: A::State|
                    0 <= j < i && #[trigger] spec_reach(
                        a,
                        a.spec_initial(),
                        input@.take(j),
                    ).contains(t) ==> a.spec_ok(t, input@[j]),
                forall|k2: int| 0 <= k2 < k ==> a.spec_ok(active@[k2], c),
                forall|y: A::State|
                    next@.contains(y) <==> exists|k2: int|
                        0 <= k2 < k && a.spec_step(#[trigger] active@[k2], c).contains(y),
            decreases active@.len() - k,
        {
            match a.advance(&active[k], c) {
                Err(_) => {
                    proof {
                        assert(active@.contains(active@[k as int]));
                        assert(reach_here.contains(active@[k as int]));
                        if forall|i2: int|
                            0 <= i2 < input@.len() ==> a.spec_sym_ok(#[trigger] input@[i2]) {
                            a.lemma_sym_ok(active@[k as int], c);
                        }
                    }
                    return Err(MatchError::UnknownSymbol { symbol: c, position: i });
                },
                Ok(v) => {
                    let ghost prev = next@;
                    let mut j: usize = 0;
                    while j < v.len()
                        invariant
                            k < active@.len(),
                            j <= v@.len(),
                            v@.to_set() == a.spec_step(active@[k as int], c),
                            forall|y: A::State|
                                next@.contains(y) <==> (prev.contains(y) || v@.take(
                                    j as int,
                                ).contains(y)),
                        decreases v@.len() - j,
                    {
                        let ghost before = next@;
                        next.push(v[j]);
                        proof {
                            assert forall|y: A::State| next@.contains(y) implies (prev.contains(y)
                                || v@.take(j as int + 1).contains(y)) by {
                                let t = choose|t: int| 0 <= t < next@.len() && next@[t] == y;
                                if t < before.len() {
                                    assert(before[t] == y);
                                    assert(before.contains(y));
                                    if v@.take(j as int).contains(y) {
                                        let u = choose|u: int|
                                            0 <= u < j && #[trigger] v@.take(j as int)[u] == y;
                                        assert(v@.take(j as int + 1)[u] == y);
                                    }
                                } else {
                                    assert(next@[t] == v@[j as int]);
                                    assert(v@.take(j as int + 1)[j as int] == y);
                                }
                            }
                            assert forall|y: A::State| (prev.contains(y) || v@.take(
                                j as int + 1,
                            ).contains(y)) implies next@.contains(y) by {
                                if prev.contains(y) {
                                    assert(before.contains(y));
                                    let t = choose|t: int|
                                        0 <= t < before.len() && before[t] == y;
                                    assert(next@[t] == y);
                                } else {
                                    let u = choose|u: int|
                                        0 <= u < j + 1 && #[trigger] v@.take(j as int + 1)[u]
                                            == y;
                                    if u < j {
                                        assert(v@.take(j as int)[u] == y);
                                        assert(before.contains(y));
                                        let t = choose|t: int|
                                            0 <= t < before.len() && before[t] == y;
                                        assert(next@[t] == y);
                                    } else {
                                        assert(next@[next@.len() - 1] == y);
                                    }
                                }
                            }
                        }
                        j = j + 1;
                    }
                    proof {
                        assert(v@.take(v@.len() as int) =~= v@);
                        assert forall|y: A::State| next@.contains(y) implies (exists|k2: int|
                            0 <= k2 < k + 1 && a.spec_step(#[trigger] active@[k2], c).contains(
                                y,
                            )) by {
                            if prev.contains(y) {
                                let k2 = choose|k2: int|
                                    0 <= k2 < k && a.spec_step(#[trigger] active@[k2], c).contains(
                                        y,
                                    );
                                assert(a.spec_step(active@[k2], c).contains(y));
                            } else {
                                assert(v@.contains(y));
                                assert(v@.to_set().contains(y));
                                assert(a.spec_step(active@[k as int], c).contains(y));
                            }
                        }
                        assert forall|y: A::State|
                            (exists|k2: int|
                                0 <= k2 < k + 1 && a.spec_step(#[trigger] active@[k2], c).contains(
                                    y,
                                )) implies next@.contains(y) by {
                            let k2 = choose|k2: int|
                                0 <= k2 < k + 1 && a.spec_step(#[trigger] active@[k2], c).contains(
                                    y,
                                );
                            if k2 < k {
                                assert(prev.contains(y));
                            } else {
                                assert(v@.to_set().contains(y));
                                assert(v@.contains(y));
                            }
                        }
                    }
                },
            }
            k = k + 1;
        }
        proof {
            assert forall|j: int, t: A::State|
                0 <= j < i + 1 && #[trigger] spec_reach(
                    a,
                    a.spec_initial(),
                    input@.take(j),
                ).contains(t) implies a.spec_ok(t, input@[j]) by {
                if j == i {
                    assert(active@.to_set().contains(t));
                    assert(active@.contains(t));
                    let k2 = choose|k2: int| 0 <= k2 < active@.len() && active@[k2] == t;
                    assert(a.spec_ok(active@[k2], c));
                }
            }
            lemma_reach_push(a, a.spec_initial(), input@.take(i as int), c);
            assert(input@.take(i as int).push(c) =~= input@.take(i as int + 1));
            assert forall|y: A::State| next@.contains(y) implies spec_step_set(
                a,
                reach_here,
                c,
            ).contains(y) by {
                let k2 = choose|k2: int|
                    0 <= k2 < active@.len() && a.spec_step(#[trigger] active@[k2], c).contains(y);
                assert(active@.contains(active@[k2]));
                assert(reach_here.contains(active@[k2]));
            }
            assert forall|y: A::State| spec_step_set(a, reach_here, c).contains(y)
                implies next@.contains(y) by {
                let x = choose|x: A::State|
                    #[trigger] reach_here.contains(x) && a.spec_step(x, c).contains(y);
                assert(active@.to_set().contains(x));
                assert(active@.contains(x));
                let k2 = choose|k2: int| 0 <= k2 < active@.len() && active@[k2] == x;
                assert(a.spec_step(active@[k2], c).contains(y));
            }
            assert(next@.to_set() =~= spec_step_set(a, reach_here, c));
        }
        active = next;
        i = i + 1;
    }
    proof {
        assert(input@.take(n as int) =~= input@);
    }
    let mut k: usize = 0;
    while k < active.len()
        invariant
            a.wf(),
            k <= active@.len(),
            active@.to_set() == spec_reach(a, a.spec_initial(), input@),
            forall|k2: int| 0 <= k2 < k ==> !a.spec_accepted(active@[k2]),
        decreases active@.len() - k,
    {
        if a.accepted(&active[k]) {
            proof {
                assert(active@.contains(active@[k as int]));
                assert(spec_reach(a, a.spec_initial(), input@).contains(active@[k as int]));
            }
            return Ok(true);
        }
        k = k + 1;
    }
    proof {
        assert(!spec_accepts(a, input@)) by {
            if spec_accepts(a, input@) {
                let x = choose|x: A::State|
                    #[trigger] spec_reach(a, a.spec_initial(), input@).contains(x)
                        && a.spec_accepted(x);
                assert(active@.to_set().contains(x));
                assert(active@.contains(x));
                let k2 = choose|k2: int| 0 <= k2 < active@.len() && active@[k2] == x;
                assert(!a.spec_accepted(active@[k2]));
            }
        }
    }
    Ok(false)
}

} // verus!
