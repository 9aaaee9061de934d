//! The language-level laws of the composition combinators: what a union,
//! concatenation or repetition composite accepts, stated against the
//! operands' own acceptance and proved for every operand automaton and
//! every input string.

use vstd::prelude::*;

use crate::combinators::ConcatNfa;
use crate::combinators::Iteration;
use crate::combinators::Stage;
use crate::combinators::StarNfa;
use crate::combinators::Sum;
use crate::combinators::UnionNfa;
use crate::lazy_nfa::spec_accepts;
use crate::lazy_nfa::spec_reach;
use crate::lazy_nfa::spec_step_set;
use crate::lazy_nfa::LazyNfa;

verus! {

/// The tagged image of a pair of branch state sets: the left-tagged
/// members of `ls` together with the right-tagged members of `rs`.
pub open spec fn tag_sets<LS, RS>(ls: Set<LS>, rs: Set<RS>) -> Set<Sum<LS, RS>> {
    Set::new(
        |s: Sum<LS, RS>|
            match s {
                Sum::Left(l) => ls.contains(l),
                Sum::Right(r) => rs.contains(r),
            },
    )
}

/// One step of a union composite acts branchwise on a tagged pair of
/// sets.
proof fn lemma_union_step_set<L: LazyNfa, R: LazyNfa>(
    u: &UnionNfa<L, R>,
    ls: Set<L::State>,
    rs: Set<R::State>,
    c: char,
)
    ensures
        spec_step_set(u, tag_sets::<L::State, R::State>(ls, rs), c) == tag_sets::<
            L::State,
            R::State,
        >(spec_step_set(&u.left, ls, c), spec_step_set(&u.right, rs, c)),
{
    let lhs = spec_step_set(u, tag_sets::<L::State, R::State>(ls, rs), c);
    let rhs = tag_sets::<L::State, R::State>(
        spec_step_set(&u.left, ls, c),
        spec_step_set(&u.right, rs, c),
    );
    assert forall|y: Sum<L::State, R::State>| lhs.contains(y) implies rhs.contains(y) by {
        let x = choose|x: Sum<L::State, R::State>|
            #[trigger] tag_sets::<L::State, R::State>(ls, rs).contains(x) && u.spec_step(
                x,
                c,
            ).contains(y);
        match x {
            Sum::Left(l) => {
                match y {
                    Sum::Left(y2) => {
                        assert(ls.contains(l) && u.left.spec_step(l, c).contains(y2));
                    },
                    Sum::Right(_) => {},
                }
            },
            Sum::Right(r) => {
                match y {
                    Sum::Left(_) => {},
                    Sum::Right(y2) => {
                        assert(rs.contains(r) && u.right.spec_step(r, c).contains(y2));
                    },
                }
            },
        }
    }
    assert forall|y: Sum<L::State, R::State>| rhs.contains(y) implies lhs.contains(y) by {
        match y {
            Sum::Left(y2) => {
                let l = choose|l: L::State|
                    #[trigger] ls.contains(l) && u.left.spec_step(l, c).contains(y2);
                let x = Sum::<L::State, R::State>::Left(l);
                assert(tag_sets::<L::State, R::State>(ls, rs).contains(x));
                assert(u.spec_step(x, c).contains(y));
            },
            Sum::Right(y2) => {
                let r = choose|r: R::State|
                    #[trigger] rs.contains(r) && u.right.spec_step(r, c).contains(y2);
                let x = Sum::<L::State, R::State>::Right(r);
                assert(tag_sets::<L::State, R::State>(ls, rs).contains(x));
                assert(u.spec_step(x, c).contains(y));
            },
        }
    }
    assert(lhs =~= rhs);
}

/// The active set of a union composite is, at every point of every run,
/// the tagged pair of the branches' own active sets.
proof fn lemma_union_reach<L: LazyNfa, R: LazyNfa>(
    u: &UnionNfa<L, R>,
    ls: Set<L::State>,
    rs: Set<R::State>,
    w: Seq<char>,
)
    ensures
        spec_reach(u, tag_sets::<L::State, R::State>(ls, rs), w) == tag_sets::<
            L::State,
            R::State,
        >(spec_reach(&u.left, ls, w), spec_reach(&u.right, rs, w)),
    decreases w.len(),
{
    if w.len() > 0 {
        lemma_union_step_set(u, ls, rs, w[0]);
        lemma_union_reach(
            u,
            spec_step_set(&u.left, ls, w[0]),
            spec_step_set(&u.right, rs, w[0]),
            w.drop_first(),
        );
    }
}

/// Union semantics: for any operands and any finite input string, the
/// union composite accepts the string exactly when the left operand
/// accepts it or the right one does.
pub proof fn lemma_union_accepts<L: LazyNfa, R: LazyNfa>(u: &UnionNfa<L, R>, w: Seq<char>)
    ensures
        spec_accepts(u, w) == (spec_accepts(&u.left, w) || spec_accepts(&u.right, w)),
{
    assert(u.spec_initial() =~= tag_sets::<L::State, R::State>(
        u.left.spec_initial(),
        u.right.spec_initial(),
    ));
    lemma_union_reach(u, u.left.spec_initial(), u.right.spec_initial(), w);
    let reach_l = spec_reach(&u.left, u.left.spec_initial(), w);
    let reach_r = spec_reach(&u.right, u.right.spec_initial(), w);
    if spec_accepts(u, w) {
        let x = choose|x: Sum<L::State, R::State>|
            #[trigger] spec_reach(u, u.spec_initial(), w).contains(x) && u.spec_accepted(x);
        match x {
            Sum::Left(l) => {
                assert(reach_l.contains(l) && u.left.spec_accepted(l));
            },
            Sum::Right(r) => {
                assert(reach_r.contains(r) && u.right.spec_accepted(r));
            },
        }
    }
    if spec_accepts(&u.left, w) {
        let l = choose|l: L::State| #[trigger] reach_l.contains(l) && u.left.spec_accepted(l);
        let x = Sum::<L::State, R::State>::Left(l);
        assert(spec_reach(u, u.spec_initial(), w).contains(x) && u.spec_accepted(x));
    }
    if spec_accepts(&u.right, w) {
        let r = choose|r: R::State| #[trigger] reach_r.contains(r) && u.right.spec_accepted(r);
        let x = Sum::<L::State, R::State>::Right(r);
        assert(spec_reach(u, u.spec_initial(), w).contains(x) && u.spec_accepted(x));
    }
}

/// The shape of every active configuration of a concatenation composite:
/// a `Before` state tracks the left operand's own run, and an `After`
/// state tracks a run of the right operand started at some point where
/// the left operand had accepted the prefix consumed so far.
proof fn lemma_concat_reach<L: LazyNfa, R: LazyNfa>(k: &ConcatNfa<L, R>, w: Seq<char>)
    ensures
        forall|y: Stage<L::State, R::State>|
            #[trigger] spec_reach(k, k.spec_initial(), w).contains(y) <==> match y {
                Stage::Before(l) => spec_reach(&k.left, k.left.spec_initial(), w).contains(l),
                Stage::After(r) => exists|i: int|
                    0 <= i <= w.len() && spec_accepts(&k.left, w.take(i)) && #[trigger] spec_reach(
                        &k.right,
                        k.right.spec_initial(),
                        w.skip(i),
                    ).contains(r),
            },
    decreases w.len(),
{
    let linit = k.left.spec_initial();
    let rinit = k.right.spec_initial();
    if w.len() == 0 {
        assert(spec_reach(k, k.spec_initial(), w) == k.spec_initial());
        assert(spec_reach(&k.left, linit, w) == linit);
        assert forall|y: Stage<L::State, R::State>|
            #[trigger] spec_reach(k, k.spec_initial(), w).contains(y) implies match y {
            Stage::Before(l) => spec_reach(&k.left, linit, w).contains(l),
            Stage::After(r) => exists|i: int|
                0 <= i <= w.len() && spec_accepts(&k.left, w.take(i)) && #[trigger] spec_reach(
                    &k.right,
                    rinit,
                    w.skip(i),
                ).contains(r),
        } by {
            match y {
                Stage::Before(_) => {},
                Stage::After(r) => {
                    assert(w.take(0) =~= w);
                    assert(w.skip(0) =~= w);
                    assert(spec_reach(&k.right, rinit, w.skip(0)).contains(r));
                },
            }
        }
        assert forall|y: Stage<L::State, R::State>|
            match y {
                Stage::Before(l) => spec_reach(&k.left, linit, w).contains(l),
                Stage::After(r) => exists|i: int|
                    0 <= i <= w.len() && spec_accepts(&k.left, w.take(i)) && #[trigger] spec_reach(
                        &k.right,
                        rinit,
                        w.skip(i),
                    ).contains(r),
            } implies #[trigger] spec_reach(k, k.spec_initial(), w).contains(y) by {
            match y {
                Stage::Before(_) => {},
                Stage::After(r) => {
                    let i = choose|i: int|
                        0 <= i <= w.len() && spec_accepts(&k.left, w.take(i))
                            && #[trigger] spec_reach(&k.right, rinit, w.skip(i)).contains(r);
                    assert(i == 0);
                    assert(w.take(0) =~= w);
                    assert(w.skip(0) =~= w);
                },
            }
        }
    } else {
        let v = w.drop_last();
        let c = w.last();
        assert(v.push(c) =~= w);
        lemma_concat_reach(k, v);
        crate::lazy_nfa::lemma_reach_push(k, k.spec_initial(), v, c);
        crate::lazy_nfa::lemma_reach_push(&k.left, linit, v, c);
        let reach_kv = spec_reach(k, k.spec_initial(), v);
        let reach_kw = spec_reach(k, k.spec_initial(), w);
        assert(reach_kw == spec_step_set(k, reach_kv, c));
        assert(spec_reach(&k.left, linit, w) == spec_step_set(
            &k.left,
            spec_reach(&k.left, linit, v),
            c,
        ));
        assert forall|y: Stage<L::State, R::State>| #[trigger] reach_kw.contains(y) implies match y {
            Stage::Before(l) => spec_reach(&k.left, linit, w).contains(l),
            Stage::After(r) => exists|i: int|
                0 <= i <= w.len() && spec_accepts(&k.left, w.take(i)) && #[trigger] spec_reach(
                    &k.right,
                    rinit,
                    w.skip(i),
                ).contains(r),
        } by {
            let x = choose|x: Stage<L::State, R::State>|
                #[trigger] reach_kv.contains(x) && k.spec_step(x, c).contains(y);
            match x {
                Stage::Before(l0) => {
                    assert(spec_reach(&k.left, linit, v).contains(l0));
                    match y {
                        Stage::Before(l) => {
                            assert(spec_reach(&k.left, linit, w).contains(l));
                        },
                        Stage::After(r) => {
                            let z = choose|z: L::State|
                                #[trigger] k.left.spec_step(l0, c).contains(z)
                                    && k.left.spec_accepted(z);
                            assert(spec_reach(&k.left, linit, w).contains(z));
                            assert(spec_accepts(&k.left, w)) by {
                                assert(spec_reach(&k.left, linit, w).contains(z)
                                    && k.left.spec_accepted(z));
                            }
                            assert(w.take(w.len() as int) =~= w);
                            assert(w.skip(w.len() as int) =~= Seq::<char>::empty());
                            assert(spec_reach(&k.right, rinit, w.skip(w.len() as int)).contains(
                                r,
                            ));
                            assert(spec_accepts(&k.left, w.take(w.len() as int)));
                        },
                    }
                },
                Stage::After(r0) => {
                    let i = choose|i: int|
                        0 <= i <= v.len() && spec_accepts(&k.left, v.take(i))
                            && #[trigger] spec_reach(&k.right, rinit, v.skip(i)).contains(r0);
                    match y {
                        Stage::Before(_) => {},
                        Stage::After(r) => {
                            assert(w.skip(i) =~= v.skip(i).push(c));
                            crate::lazy_nfa::lemma_reach_push(&k.right, rinit, v.skip(i), c);
                            assert(spec_reach(&k.right, rinit, w.skip(i)) == spec_step_set(
                                &k.right,
                                spec_reach(&k.right, rinit, v.skip(i)),
                                c,
                            ));
                            assert(spec_reach(&k.right, rinit, w.skip(i)).contains(r));
                            assert(w.take(i) =~= v.take(i));
                        },
                    }
                },
            }
        }
        assert forall|y: Stage<L::State, R::State>|
            match y {
                Stage::Before(l) => spec_reach(&k.left, linit, w).contains(l),
                Stage::After(r) => exists|i: int|
                    0 <= i <= w.len() && spec_accepts(&k.left, w.take(i)) && #[trigger] spec_reach(
                        &k.right,
                        rinit,
                        w.skip(i),
                    ).contains(r),
            } implies #[trigger] reach_kw.contains(y) by {
            match y {
                Stage::Before(l) => {
                    let l0 = choose|l0: L::State|
                        #[trigger] spec_reach(&k.left, linit, v).contains(l0)
                            && k.left.spec_step(l0, c).contains(l);
                    let x = Stage::<L::State, R::State>::Before(l0);
                    assert(reach_kv.contains(x));
                    assert(k.spec_step(x, c).contains(y));
                },
                Stage::After(r) => {
                    let i = choose|i: int|
                        0 <= i <= w.len() && spec_accepts(&k.left, w.take(i))
                            && #[trigger] spec_reach(&k.right, rinit, w.skip(i)).contains(r);
                    if i == w.len() {
                        assert(w.take(i) =~= w);
                        assert(spec_accepts(&k.left, w));
                        let z = choose|z: L::State|
                            #[trigger] spec_reach(&k.left, linit, w).contains(z)
                                && k.left.spec_accepted(z);
                        let l0 = choose|l0: L::State|
                            #[trigger] spec_reach(&k.left, linit, v).contains(l0)
                                && k.left.spec_step(l0, c).contains(z);
                        let x = Stage::<L::State, R::State>::Before(l0);
                        assert(reach_kv.contains(x));
                        assert(w.skip(i) =~= Seq::<char>::empty());
                        assert(rinit.contains(r));
                        assert(crate::lazy_nfa::spec_step_hits_accepting(&k.left, l0, c)) by {
                            assert(k.left.spec_step(l0, c).contains(z) && k.left.spec_accepted(z));
                        }
                        assert(k.spec_step(x, c).contains(y));
                    } else {
                        assert(i <= v.len());
                        assert(w.skip(i) =~= v.skip(i).push(c));
                        crate::lazy_nfa::lemma_reach_push(&k.right, rinit, v.skip(i), c);
                        assert(spec_reach(&k.right, rinit, w.skip(i)) == spec_step_set(
                            &k.right,
                            spec_reach(&k.right, rinit, v.skip(i)),
                            c,
                        ));
                        let r0 = choose|r0: R::State|
                            #[trigger] spec_reach(&k.right, rinit, v.skip(i)).contains(r0)
                                && k.right.spec_step(r0, c).contains(r);
                        assert(w.take(i) =~= v.take(i));
                        let x = Stage::<L::State, R::State>::After(r0);
                        assert(spec_accepts(&k.left, v.take(i)));
                        assert(exists|i2: int|
                            0 <= i2 <= v.len() && spec_accepts(&k.left, v.take(i2))
                                && #[trigger] spec_reach(
                                &k.right,
                                k.right.spec_initial(),
                                v.skip(i2),
                            ).contains(r0));
                        assert(spec_reach(k, k.spec_initial(), v).contains(x) <==> (match x {
                            Stage::Before(l2) => spec_reach(
                                &k.left,
                                k.left.spec_initial(),
                                v,
                            ).contains(l2),
                            Stage::After(r2) => exists|i2: int|
                                0 <= i2 <= v.len() && spec_accepts(&k.left, v.take(i2))
                                    && #[trigger] spec_reach(
                                    &k.right,
                                    k.right.spec_initial(),
                                    v.skip(i2),
                                ).contains(r2),
                        }));
                        assert(reach_kv.contains(x));
                        assert(k.spec_step(x, c).contains(y));
                    }
                },
            }
        }
    }
}

/// Concatenation semantics: for any operands and any finite input string,
/// the concatenation composite accepts the string exactly when it splits
/// into a prefix the left operand accepts and a suffix the right one
/// accepts.
pub proof fn lemma_concat_accepts<L: LazyNfa, R: LazyNfa>(k: &ConcatNfa<L, R>, w: Seq<char>)
    ensures
        spec_accepts(k, w) == exists|i: int|
            0 <= i <= w.len() && spec_accepts(&k.left, w.take(i)) && #[trigger] spec_accepts(
                &k.right,
                w.skip(i),
            ),
{
    lemma_concat_reach(k, w);
    let rinit = k.right.spec_initial();
    if spec_accepts(k, w) {
        let y = choose|y: Stage<L::State, R::State>|
            #[trigger] spec_reach(k, k.spec_initial(), w).contains(y) && k.spec_accepted(y);
        match y {
            Stage::Before(_) => {},
            Stage::After(r) => {
                let i = choose|i: int|
                    0 <= i <= w.len() && spec_accepts(&k.left, w.take(i)) && #[trigger] spec_reach(
                        &k.right,
                        rinit,
                        w.skip(i),
                    ).contains(r);
                assert(spec_accepts(&k.right, w.skip(i))) by {
                    assert(spec_reach(&k.right, rinit, w.skip(i)).contains(r)
                        && k.right.spec_accepted(r));
                }
            },
        }
    }
    if exists|i: int|
        0 <= i <= w.len() && spec_accepts(&k.left, w.take(i)) && #[trigger] spec_accepts(
            &k.right,
            w.skip(i),
        ) {
        let i = choose|i: int|
            0 <= i <= w.len() && spec_accepts(&k.left, w.take(i)) && #[trigger] spec_accepts(
                &k.right,
                w.skip(i),
            );
        let r = choose|r: R::State|
            #[trigger] spec_reach(&k.right, rinit, w.skip(i)).contains(r) && k.right.spec_accepted(
                r,
            );
        let y = Stage::<L::State, R::State>::After(r);
        assert(exists|i2: int|
            0 <= i2 <= w.len() && spec_accepts(&k.left, w.take(i2)) && #[trigger] spec_reach(
                &k.right,
                k.right.spec_initial(),
                w.skip(i2),
            ).contains(r));
        assert(spec_reach(k, k.spec_initial(), w).contains(y) <==> (match y {
            Stage::Before(l2) => spec_reach(&k.left, k.left.spec_initial(), w).contains(l2),
            Stage::After(r2) => exists|i2: int|
                0 <= i2 <= w.len() && spec_accepts(&k.left, w.take(i2)) && #[trigger] spec_reach(
                    &k.right,
                    k.right.spec_initial(),
                    w.skip(i2),
                ).contains(r2),
        }));
        assert(spec_reach(k, k.spec_initial(), w).contains(y));
        assert(k.spec_accepted(y));
    }
}


/// `w` splits into a (possibly empty) sequence of nonempty pieces, each
/// accepted by `a`.
pub open spec fn spec_star_pieces<I: LazyNfa>(a: &I, w: Seq<char>) -> bool
    decreases w.len(),
{
    w.len() == 0 || exists|j: int|
        0 <= j < w.len() && spec_star_pieces(a, #[trigger] w.take(j)) && spec_accepts(a, w.skip(j))
}

/// The shape of every active configuration of a repetition composite: a
/// fresh state is an inner start configuration available exactly when the
/// prefix consumed so far splits into accepted pieces, and a mid state
/// tracks an inner run started at some such point.
proof fn lemma_star_reach<I: LazyNfa>(st: &StarNfa<I>, w: Seq<char>)
    ensures
        forall|y: Iteration<I::State>|
            #[trigger] spec_reach(st, st.spec_initial(), w).contains(y) <==> match y {
                Iteration::Fresh(x) => st.inner.spec_initial().contains(x) && spec_star_pieces(
                    &st.inner,
                    w,
                ),
                Iteration::Mid(x) => exists|j: int|
                    0 <= j < w.len() && spec_star_pieces(&st.inner, #[trigger] w.take(j))
                        && spec_reach(&st.inner, st.inner.spec_initial(), w.skip(j)).contains(x),
            },
    decreases w.len(),
{
    let init = st.inner.spec_initial();
    if w.len() == 0 {
        assert(spec_reach(st, st.spec_initial(), w) == st.spec_initial());
        assert(spec_star_pieces(&st.inner, w));
    } else {
        let v = w.drop_last();
        let c = w.last();
        assert(v.push(c) =~= w);
        lemma_star_reach(st, v);
        crate::lazy_nfa::lemma_reach_push(st, st.spec_initial(), v, c);
        let reach_sv = spec_reach(st, st.spec_initial(), v);
        let reach_sw = spec_reach(st, st.spec_initial(), w);
        assert(reach_sw == spec_step_set(st, reach_sv, c));
        assert(w.take(v.len() as int) =~= v);
        assert(w.skip(v.len() as int) =~= seq![c]);
        assert(spec_reach(&st.inner, init, seq![c]) == spec_step_set(&st.inner, init, c)) by {
            assert(seq![c].len() == 1);
            assert(seq![c][0] == c);
            assert(seq![c].drop_first() =~= Seq::<char>::empty());
            assert(spec_reach(&st.inner, init, seq![c]) == spec_reach(
                &st.inner,
                spec_step_set(&st.inner, init, c),
                Seq::<char>::empty(),
            ));
        }
        assert forall|y: Iteration<I::State>| #[trigger] reach_sw.contains(y) implies match y {
            Iteration::Fresh(x) => st.inner.spec_initial().contains(x) && spec_star_pieces(
                &st.inner,
                w,
            ),
            Iteration::Mid(x) => exists|j: int|
                0 <= j < w.len() && spec_star_pieces(&st.inner, #[trigger] w.take(j))
                    && spec_reach(&st.inner, st.inner.spec_initial(), w.skip(j)).contains(x),
        } by {
            let x0 = choose|x0: Iteration<I::State>|
                #[trigger] reach_sv.contains(x0) && st.spec_step(x0, c).contains(y);
            let xin = match x0 {
                Iteration::Fresh(x) => x,
                Iteration::Mid(x) => x,
            };
            let ghost j0: int = match x0 {
                Iteration::Fresh(_) => v.len() as int,
                Iteration::Mid(_) => choose|j: int|
                    0 <= j < v.len() && spec_star_pieces(&st.inner, #[trigger] v.take(j))
                        && spec_reach(&st.inner, st.inner.spec_initial(), v.skip(j)).contains(xin),
            };
            assert(0 <= j0 <= v.len());
            if x0 is Mid {
                assert(w.take(j0) =~= v.take(j0));
                assert(spec_star_pieces(&st.inner, v.take(j0)));
            } else {
                assert(w.take(j0) =~= v);
                assert(spec_star_pieces(&st.inner, v));
            }
            assert(spec_star_pieces(&st.inner, w.take(j0)));
            assert(xin == (match x0 {
                Iteration::Fresh(x) => x,
                Iteration::Mid(x) => x,
            }));
            if x0 is Mid {
                assert(w.take(j0) =~= v.take(j0));
                assert(w.skip(j0) =~= v.skip(j0).push(c));
                crate::lazy_nfa::lemma_reach_push(&st.inner, init, v.skip(j0), c);
                assert(spec_reach(&st.inner, init, w.skip(j0)) == spec_step_set(
                    &st.inner,
                    spec_reach(&st.inner, init, v.skip(j0)),
                    c,
                ));
                assert(spec_reach(&st.inner, init, v.skip(j0)).contains(xin));
            } else {
                assert(init.contains(xin));
                assert(spec_reach(&st.inner, init, w.skip(j0)) == spec_step_set(
                    &st.inner,
                    init,
                    c,
                ));
                assert(spec_reach(&st.inner, init, v.skip(j0) ) == init) by {
                    assert(v.skip(j0) =~= Seq::<char>::empty());
                }
                assert(spec_reach(&st.inner, init, v.skip(j0)).contains(xin));
            }
            assert(spec_reach(&st.inner, init, w.skip(j0)) == spec_step_set(
                &st.inner,
                spec_reach(&st.inner, init, v.skip(j0)),
                c,
            )) by {
                assert(w.skip(j0) =~= v.skip(j0).push(c));
                crate::lazy_nfa::lemma_reach_push(&st.inner, init, v.skip(j0), c);
            }
            match y {
                Iteration::Mid(ym) => {
                    assert(st.inner.spec_step(xin, c).contains(ym));
                    assert(spec_reach(&st.inner, init, w.skip(j0)).contains(ym));
                    assert(exists|j: int|
                        0 <= j < w.len() && spec_star_pieces(&st.inner, #[trigger] w.take(j))
                            && spec_reach(&st.inner, st.inner.spec_initial(), w.skip(j)).contains(
                            ym,
                        ));
                },
                Iteration::Fresh(yf) => {
                    assert(init.contains(yf));
                    let z = choose|z: I::State|
                        #[trigger] st.inner.spec_step(xin, c).contains(z)
                            && st.inner.spec_accepted(z);
                    assert(spec_reach(&st.inner, init, w.skip(j0)).contains(z));
                    assert(spec_accepts(&st.inner, w.skip(j0))) by {
                        assert(spec_reach(&st.inner, st.inner.spec_initial(), w.skip(j0)).contains(
                            z,
                        ) && st.inner.spec_accepted(z));
                    }
                    assert(spec_star_pieces(&st.inner, w)) by {
                        assert(0 <= j0 < w.len() && spec_star_pieces(
                            &st.inner,
                            #[trigger] w.take(j0),
                        ) && spec_accepts(&st.inner, w.skip(j0)));
                    }
                },
            }
        }
        assert forall|y: Iteration<I::State>|
            match y {
                Iteration::Fresh(x) => st.inner.spec_initial().contains(x) && spec_star_pieces(
                    &st.inner,
                    w,
                ),
                Iteration::Mid(x) => exists|j: int|
                    0 <= j < w.len() && spec_star_pieces(&st.inner, #[trigger] w.take(j))
                        && spec_reach(&st.inner, st.inner.spec_initial(), w.skip(j)).contains(x),
            } implies #[trigger] reach_sw.contains(y) by {
            let ghost j0: int = match y {
                Iteration::Fresh(_) => choose|j: int|
                    0 <= j < w.len() && spec_star_pieces(&st.inner, #[trigger] w.take(j))
                        && spec_accepts(&st.inner, w.skip(j)),
                Iteration::Mid(x) => choose|j: int|
                    0 <= j < w.len() && spec_star_pieces(&st.inner, #[trigger] w.take(j))
                        && spec_reach(&st.inner, st.inner.spec_initial(), w.skip(j)).contains(x),
            };
            assert(0 <= j0 <= v.len());
            assert(w.skip(j0) =~= v.skip(j0).push(c));
            crate::lazy_nfa::lemma_reach_push(&st.inner, init, v.skip(j0), c);
            assert(spec_reach(&st.inner, init, w.skip(j0)) == spec_step_set(
                &st.inner,
                spec_reach(&st.inner, init, v.skip(j0)),
                c,
            ));
            assert(w.take(j0) =~= v.take(j0));
            let zy = match y {
                Iteration::Fresh(_) => choose|z: I::State|
                    #[trigger] spec_reach(&st.inner, init, w.skip(j0)).contains(z)
                        && st.inner.spec_accepted(z),
                Iteration::Mid(x) => x,
            };
            if y is Fresh {
                assert(spec_accepts(&st.inner, w.skip(j0)));
                assert(spec_reach(&st.inner, init, w.skip(j0)).contains(zy));
            } else {
                assert(spec_reach(&st.inner, init, w.skip(j0)).contains(zy));
            }
            let z0 = choose|z0: I::State|
                #[trigger] spec_reach(&st.inner, init, v.skip(j0)).contains(z0)
                    && st.inner.spec_step(z0, c).contains(zy);
            let x0 = if j0 == v.len() {
                Iteration::<I::State>::Fresh(z0)
            } else {
                Iteration::<I::State>::Mid(z0)
            };
            if j0 == v.len() {
                assert(v.skip(j0) =~= Seq::<char>::empty());
                assert(spec_reach(&st.inner, init, v.skip(j0)) == init);
                assert(init.contains(z0));
                assert(spec_star_pieces(&st.inner, v));
                assert(reach_sv.contains(x0));
            } else {
                assert(exists|j: int|
                    0 <= j < v.len() && spec_star_pieces(&st.inner, #[trigger] v.take(j))
                        && spec_reach(&st.inner, st.inner.spec_initial(), v.skip(j)).contains(z0));
                assert(reach_sv.contains(x0));
            }
            match y {
                Iteration::Fresh(yf) => {
                    assert(crate::lazy_nfa::spec_step_hits_accepting(&st.inner, z0, c)) by {
                        assert(st.inner.spec_step(z0, c).contains(zy) && st.inner.spec_accepted(
                            zy,
                        ));
                    }
                    assert(st.spec_step(x0, c).contains(y));
                },
                Iteration::Mid(ym) => {
                    assert(st.spec_step(x0, c).contains(y));
                },
            }
        }
    }
}

/// Repetition semantics: the star composite accepts a string exactly when
/// it is empty or splits into a nonempty sequence of nonempty pieces each
/// accepted by the inner automaton. (An inner automaton with no start
/// configuration at all is excluded: its star has no configurations
/// either, so it cannot accept even the empty string.)
pub proof fn lemma_star_accepts<I: LazyNfa>(st: &StarNfa<I>, w: Seq<char>)
    requires
        exists|x: I::State| st.inner.spec_initial().contains(x),
    ensures
        spec_accepts(st, w) == spec_star_pieces(&st.inner, w),
{
    lemma_star_reach(st, w);
    let init = st.inner.spec_initial();
    if spec_star_pieces(&st.inner, w) {
        if w.len() == 0 {
            let x0 = choose|x: I::State| init.contains(x);
            let y = Iteration::<I::State>::Fresh(x0);
            assert(spec_reach(st, st.spec_initial(), w) == st.spec_initial());
            assert(spec_reach(st, st.spec_initial(), w).contains(y));
            assert(st.spec_accepted(y));
        } else {
            let x0 = choose|x: I::State| init.contains(x);
            let y = Iteration::<I::State>::Fresh(x0);
            assert(spec_reach(st, st.spec_initial(), w).contains(y));
            assert(st.spec_accepted(y));
        }
    }
    if spec_accepts(st, w) {
        let y = choose|y: Iteration<I::State>|
            #[trigger] spec_reach(st, st.spec_initial(), w).contains(y) && st.spec_accepted(y);
        match y {
            Iteration::Fresh(_) => {
                if w.len() > 0 {
                    assert(spec_star_pieces(&st.inner, w));
                }
            },
            Iteration::Mid(x) => {
                let j = choose|j: int|
                    0 <= j < w.len() && spec_star_pieces(&st.inner, #[trigger] w.take(j))
                        && spec_reach(&st.inner, st.inner.spec_initial(), w.skip(j)).contains(x);
                assert(spec_accepts(&st.inner, w.skip(j))) by {
                    assert(spec_reach(&st.inner, st.inner.spec_initial(), w.skip(j)).contains(x)
                        && st.inner.spec_accepted(x));
                }
                assert(spec_star_pieces(&st.inner, w)) by {
                    assert(0 <= j < w.len() && spec_star_pieces(&st.inner, #[trigger] w.take(j))
                        && spec_accepts(&st.inner, w.skip(j)));
                }
            },
        }
    }
}

} // verus!
