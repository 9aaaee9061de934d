//! The textual grammar of patterns, as a recursive-descent parser with
//! one function per grammar level:
//!
//! ```text
//! regexp       := unionexp
//! unionexp     := interexp ("|" interexp)*
//! interexp     := concatexp            (intersection not yet supported)
//! concatexp    := repeatexp+
//! repeatexp    := complexp "*" | complexp
//! complexp     := charclassexp         (complement not yet supported)
//! charclassexp := simpleexp            (character classes not yet supported)
//! simpleexp    := charexp | "#" | "()" | "(" unionexp ")"
//! charexp      := any lowercase ASCII letter
//! ```
//!
//! Each executable level is proved equal to its spec-level counterpart,
//! which operates on the character sequence directly.

use vstd::prelude::*;

use crate::ast::children_to_spec;
use crate::ast::concat;
use crate::ast::empty;
use crate::ast::lemma_children_to_spec;
use crate::ast::literal;
use crate::ast::parend;
use crate::ast::spec_concat;
use crate::ast::spec_render_children;
use crate::ast::spec_union;
use crate::ast::star;
use crate::ast::union;
use crate::ast::unit;
use crate::ast::RegExp;
use crate::ast::SpecExp;
use crate::error::ParseError;

verus! {

/// The characters a literal may hold.
pub open spec fn spec_char_lower(c: char) -> bool {
    'a' <= c && c <= 'z'
}

/// A `simpleexp` starting at `pos`: a literal character, `#` for the
/// empty language, `()` for the empty string, or a parenthesized
/// `unionexp`.
pub open spec fn spec_simpleexp(s: Seq<char>, pos: int) -> Option<(SpecExp, int)>
    decreases s.len() - pos, 0int,
{
    if pos < s.len() && spec_char_lower(s[pos]) {
        Some((SpecExp::Literal(s[pos]), pos + 1))
    } else if pos < s.len() && s[pos] == '#' {
        Some((SpecExp::Empty, pos + 1))
    } else if pos + 1 < s.len() && s[pos] == '(' && s[pos + 1] == ')' {
        Some((SpecExp::Unit, pos + 2))
    } else if pos < s.len() && s[pos] == '(' {
        match spec_unionexp(s, pos + 1) {
            Some((e, p)) => if p < s.len() && s[p] == ')' {
                Some((e, p + 1))
            } else {
                None
            },
            None => None,
        }
    } else {
        None
    }
}

/// A `repeatexp` starting at `pos`: a `simpleexp`, starred when a `*`
/// follows it directly.
pub open spec fn spec_repeatexp(s: Seq<char>, pos: int) -> Option<(SpecExp, int)>
    decreases s.len() - pos, 1int,
{
    match spec_simpleexp(s, pos) {
        Some((e, p)) => if p < s.len() && s[p] == '*' {
            Some((SpecExp::Star(Box::new(e)), p + 1))
        } else {
            Some((e, p))
        },
        None => None,
    }
}

/// The rest of a `concatexp` once the pieces in `acc` are parsed: keeps
/// taking `repeatexp`s while they make progress, then collapses through
/// the smart constructor.
pub open spec fn spec_concat_tail(s: Seq<char>, pos: int, acc: Seq<SpecExp>) -> Option<
    (SpecExp, int),
>
    decreases s.len() - pos, 2int,
{
    match spec_repeatexp(s, pos) {
        Some((e, p)) => if pos < p <= s.len() {
            spec_concat_tail(s, p, acc.push(e))
        } else {
            None
        },
        None => Some((spec_concat(acc), pos)),
    }
}

/// A `concatexp` starting at `pos`: one or more `repeatexp`s.
pub open spec fn spec_concatexp(s: Seq<char>, pos: int) -> Option<(SpecExp, int)>
    decreases s.len() - pos, 3int,
{
    match spec_repeatexp(s, pos) {
        Some((first, p)) => if pos < p <= s.len() {
            spec_concat_tail(s, p, seq![first])
        } else {
            None
        },
        None => None,
    }
}

/// The rest of a `unionexp` once the branches in `acc` are parsed: keeps
/// taking `"|" interexp` pairs, then collapses through the smart
/// constructor.
pub open spec fn spec_union_tail(s: Seq<char>, pos: int, acc: Seq<SpecExp>) -> Option<
    (SpecExp, int),
>
    decreases s.len() - pos, 4int,
{
    if pos < s.len() && s[pos] == '|' {
        match spec_concatexp(s, pos + 1) {
            Some((e, p)) => if pos < p <= s.len() {
                spec_union_tail(s, p, acc.push(e))
            } else {
                None
            },
            None => None,
        }
    } else {
        Some((spec_union(acc), pos))
    }
}

/// A `unionexp` starting at `pos`: one or more `interexp`s separated by
/// `|`.
pub open spec fn spec_unionexp(s: Seq<char>, pos: int) -> Option<(SpecExp, int)>
    decreases s.len() - pos, 5int,
{
    match spec_concatexp(s, pos) {
        Some((first, p)) => if pos < p <= s.len() {
            spec_union_tail(s, p, seq![first])
        } else {
            None
        },
        None => None,
    }
}

/// The whole input as one pattern: a `unionexp` that consumes every
/// character.
pub open spec fn spec_parse(s: Seq<char>) -> Option<SpecExp> {
    match spec_unionexp(s, 0) {
        Some((e, p)) => if p == s.len() {
            Some(e)
        } else {
            None
        },
        None => None,
    }
}

/// A literal character.
fn charexp(input: &str, pos: usize) -> (r: Option<(RegExp, usize)>)
    requires
        pos <= input@.len(),
    ensures
        r matches Some(tp) ==> pos < input@.len() && spec_char_lower(input@[pos as int]) && tp.0
            == RegExp::Literal(input@[pos as int]) && tp.1 == pos + 1,
        r is None ==> !(pos < input@.len() && spec_char_lower(input@[pos as int])),
{
    if pos < input.unicode_len() {
        let c = input.get_char(pos);
        if 'a' <= c && c <= 'z' {
            return Some((literal(c), pos + 1));
        }
    }
    None
}

/// A `simpleexp`; see the grammar above.
fn simpleexp(input: &str, pos: usize) -> (r: Option<(RegExp, usize)>)
    requires
        pos <= input@.len(),
    ensures
        r matches Some(tp) ==> pos < tp.1 <= input@.len() && spec_simpleexp(input@, pos as int)
            == Some((tp.0.to_spec(), tp.1 as int)) && tp.0.to_spec().wf(),
        r is None ==> spec_simpleexp(input@, pos as int) is None,
    decreases input@.len() - pos, 1int,
{
    match charexp(input, pos) {
        Some(tp) => {
            return Some(tp);
        },
        None => {},
    }
    let n = input.unicode_len();
    if pos < n && input.get_char(pos) == '#' {
        return Some((empty(), pos + 1));
    }
    if pos < n && input.get_char(pos) == '(' && pos + 1 < n && input.get_char(pos + 1) == ')' {
        return Some((unit(), pos + 2));
    }
    if pos < n && input.get_char(pos) == '(' {
        match unionexp(input, pos + 1) {
            Some((e, p)) => {
                if p < n && input.get_char(p) == ')' {
                    Some((e, p + 1))
                } else {
                    None
                }
            },
            None => None,
        }
    } else {
        None
    }
}

/// A `charclassexp`; character classes are a deferred extension, so this
/// is a `simpleexp`.
fn charclassexp(input: &str, pos: usize) -> (r: Option<(RegExp, usize)>)
    requires
        pos <= input@.len(),
    ensures
        r matches Some(tp) ==> pos < tp.1 <= input@.len() && spec_simpleexp(input@, pos as int)
            == Some((tp.0.to_spec(), tp.1 as int)) && tp.0.to_spec().wf(),
        r is None ==> spec_simpleexp(input@, pos as int) is None,
    decreases input@.len() - pos, 2int,
{
    simpleexp(input, pos)
}

/// A `complexp`; complement is a deferred extension, so this is a
/// `charclassexp`.
fn complexp(input: &str, pos: usize) -> (r: Option<(RegExp, usize)>)
    requires
        pos <= input@.len(),
    ensures
        r matches Some(tp) ==> pos < tp.1 <= input@.len() && spec_simpleexp(input@, pos as int)
            == Some((tp.0.to_spec(), tp.1 as int)) && tp.0.to_spec().wf(),
        r is None ==> spec_simpleexp(input@, pos as int) is None,
    decreases input@.len() - pos, 3int,
{
    charclassexp(input, pos)
}

/// A `repeatexp`; see the grammar above.
fn repeatexp(input: &str, pos: usize) -> (r: Option<(RegExp, usize)>)
    requires
        pos <= input@.len(),
    ensures
        r matches Some(tp) ==> pos < tp.1 <= input@.len() && spec_repeatexp(input@, pos as int)
            == Some((tp.0.to_spec(), tp.1 as int)) && tp.0.to_spec().wf(),
        r is None ==> spec_repeatexp(input@, pos as int) is None,
    decreases input@.len() - pos, 4int,
{
    match complexp(input, pos) {
        Some((e, p)) => {
            if p < input.unicode_len() && input.get_char(p) == '*' {
                Some((star(e), p + 1))
            } else {
                Some((e, p))
            }
        },
        None => None,
    }
}

/// The rest of a `concatexp` after the pieces in `acc`.
fn concat_tail(input: &str, pos: usize, acc: Vec<RegExp>) -> (r: Option<(RegExp, usize)>)
    requires
        pos <= input@.len(),
        acc@.len() >= 1,
        forall|i: int| 0 <= i < acc@.len() ==> (#[trigger] acc@[i]).to_spec().wf(),
    ensures
        r matches Some(tp) ==> pos <= tp.1 <= input@.len() && spec_concat_tail(
            input@,
            pos as int,
            children_to_spec(acc@),
        ) == Some((tp.0.to_spec(), tp.1 as int)) && tp.0.to_spec().wf(),
        r is None ==> spec_concat_tail(input@, pos as int, children_to_spec(acc@)) is None,
    decreases input@.len() - pos, 5int,
{
    match repeatexp(input, pos) {
        Some((e, p)) => {
            let ghost acc0 = acc@;
            let mut acc2 = acc;
            acc2.push(e);
            proof {
                crate::ast::lemma_children_to_spec_push(acc0, e);
                assert(acc2@ == acc0.push(e));
                assert forall|i: int| 0 <= i < acc2@.len() implies (
                #[trigger] acc2@[i]).to_spec().wf() by {
                    if i < acc0.len() {
                        assert(acc2@[i] == acc0[i]);
                    }
                }
            }
            concat_tail(input, p, acc2)
        },
        None => {
            proof {
                lemma_children_to_spec(acc@);
            }
            Some((concat(acc), pos))
        },
    }
}

/// A `concatexp`; see the grammar above.
fn concatexp(input: &str, pos: usize) -> (r: Option<(RegExp, usize)>)
    requires
        pos <= input@.len(),
    ensures
        r matches Some(tp) ==> pos < tp.1 <= input@.len() && spec_concatexp(input@, pos as int)
            == Some((tp.0.to_spec(), tp.1 as int)) && tp.0.to_spec().wf(),
        r is None ==> spec_concatexp(input@, pos as int) is None,
    decreases input@.len() - pos, 6int,
{
    match repeatexp(input, pos) {
        Some((first, p)) => {
            let mut acc: Vec<RegExp> = Vec::new();
            acc.push(first);
            proof {
                assert(children_to_spec(acc@) =~= seq![acc@[0].to_spec()]) by {
                    lemma_children_to_spec(acc@);
                }
            }
            concat_tail(input, p, acc)
        },
        None => None,
    }
}

/// An `interexp`; intersection is a deferred extension, so this is a
/// `concatexp`.
fn interexp(input: &str, pos: usize) -> (r: Option<(RegExp, usize)>)
    requires
        pos <= input@.len(),
    ensures
        r matches Some(tp) ==> pos < tp.1 <= input@.len() && spec_concatexp(input@, pos as int)
            == Some((tp.0.to_spec(), tp.1 as int)) && tp.0.to_spec().wf(),
        r is None ==> spec_concatexp(input@, pos as int) is None,
    decreases input@.len() - pos, 7int,
{
    concatexp(input, pos)
}

/// The rest of a `unionexp` after the branches in `acc`.
fn union_tail(input: &str, pos: usize, acc: Vec<RegExp>) -> (r: Option<(RegExp, usize)>)
    requires
        pos <= input@.len(),
        acc@.len() >= 1,
        forall|i: int| 0 <= i < acc@.len() ==> (#[trigger] acc@[i]).to_spec().wf(),
    ensures
        r matches Some(tp) ==> pos <= tp.1 <= input@.len() && spec_union_tail(
            input@,
            pos as int,
            children_to_spec(acc@),
        ) == Some((tp.0.to_spec(), tp.1 as int)) && tp.0.to_spec().wf(),
        r is None ==> spec_union_tail(input@, pos as int, children_to_spec(acc@)) is None,
    decreases input@.len() - pos, 8int,
{
    if pos < input.unicode_len() && input.get_char(pos) == '|' {
        match interexp(input, pos + 1) {
            Some((e, p)) => {
                let ghost acc0 = acc@;
                let mut acc2 = acc;
                acc2.push(e);
                proof {
                    crate::ast::lemma_children_to_spec_push(acc0, e);
                    assert(acc2@ == acc0.push(e));
                    assert forall|i: int| 0 <= i < acc2@.len() implies (
                    #[trigger] acc2@[i]).to_spec().wf() by {
                        if i < acc0.len() {
                            assert(acc2@[i] == acc0[i]);
                        }
                    }
                }
                union_tail(input, p, acc2)
            },
            None => None,
        }
    } else {
        proof {
            lemma_children_to_spec(acc@);
        }
        Some((union(acc), pos))
    }
}

/// A `unionexp`; see the grammar above.
fn unionexp(input: &str, pos: usize) -> (r: Option<(RegExp, usize)>)
    requires
        pos <= input@.len(),
    ensures
        r matches Some(tp) ==> pos < tp.1 <= input@.len() && spec_unionexp(input@, pos as int)
            == Some((tp.0.to_spec(), tp.1 as int)) && tp.0.to_spec().wf(),
        r is None ==> spec_unionexp(input@, pos as int) is None,
    decreases input@.len() - pos, 9int,
{
    match interexp(input, pos) {
        Some((first, p)) => {
            let mut acc: Vec<RegExp> = Vec::new();
            acc.push(first);
            proof {
                assert(children_to_spec(acc@) =~= seq![acc@[0].to_spec()]) by {
                    lemma_children_to_spec(acc@);
                }
            }
            union_tail(input, p, acc)
        },
        None => None,
    }
}

/// A whole pattern: a `unionexp`.
fn regexp(input: &str, pos: usize) -> (r: Option<(RegExp, usize)>)
    requires
        pos <= input@.len(),
    ensures
        r matches Some(tp) ==> pos < tp.1 <= input@.len() && spec_unionexp(input@, pos as int)
            == Some((tp.0.to_spec(), tp.1 as int)) && tp.0.to_spec().wf(),
        r is None ==> spec_unionexp(input@, pos as int) is None,
{
    unionexp(input, pos)
}


/// The characters that can begin a `simpleexp`.
pub open spec fn spec_atom_start(c: char) -> bool {
    spec_char_lower(c) || c == '#' || c == '('
}

/// The canonical rendering of the second and later union branches: a `|`
/// before each parenthesized branch.
pub open spec fn spec_render_union_rest(es: Seq<SpecExp>) -> Seq<char>
    decreases es.len(),
{
    if es.len() == 0 {
        Seq::empty()
    } else {
        seq!['|'] + parend(es[0].spec_render()) + spec_render_union_rest(es.drop_first())
    }
}

/// A subrange equal to a concatenation splits into subranges equal to the
/// parts.
proof fn lemma_subrange_split(s: Seq<char>, pos: int, a: Seq<char>, b: Seq<char>)
    requires
        0 <= pos,
        pos + a.len() + b.len() <= s.len(),
        s.subrange(pos, pos + a.len() + b.len()) == a + b,
    ensures
        s.subrange(pos, pos + a.len()) == a,
        s.subrange(pos + a.len(), pos + a.len() + b.len()) == b,
{
    assert forall|i: int| 0 <= i < a.len() implies s.subrange(pos, pos + a.len())[i] == a[i] by {
        assert(s.subrange(pos, pos + a.len() + b.len())[i] == (a + b)[i]);
    }
    assert(s.subrange(pos, pos + a.len()) =~= a);
    assert forall|i: int|
        0 <= i < b.len() implies s.subrange(pos + a.len(), pos + a.len() + b.len())[i] == b[i] by {
        assert(s.subrange(pos + a.len(), pos + a.len() + b.len())[i] == s[pos + a.len() + i]);
        assert(s.subrange(pos, pos + a.len() + b.len())[a.len() + i] == s[pos + (a.len() + i)]);
        assert((a + b)[a.len() + i] == b[i]);
    }
    assert(s.subrange(pos + a.len(), pos + a.len() + b.len()) =~= b);
}

/// A well-formed tree with grammar-expressible literals renders to a
/// nonempty string that begins with a character a `simpleexp` can begin
/// with.
proof fn lemma_render_shape(e: SpecExp)
    requires
        e.wf(),
        e.lowercase_literals(),
    ensures
        e.spec_render().len() >= 1,
        spec_atom_start(e.spec_render()[0]),
{
    match e {
        SpecExp::Empty => {},
        SpecExp::Unit => {},
        SpecExp::Literal(_) => {},
        SpecExp::Concat(es) => {
            assert(spec_render_children(es, false) == parend(es[0].spec_render()) + (
            Seq::<char>::empty()) + spec_render_children(es.drop_first(), false));
            assert(e.spec_render()[0] == '(');
        },
        SpecExp::Union(es) => {
            assert(spec_render_children(es, true) == parend(es[0].spec_render()) + (seq!['|'])
                + spec_render_children(es.drop_first(), true));
            assert(e.spec_render()[0] == '(');
        },
        SpecExp::Star(inner) => {
            assert(e.spec_render()[0] == '(');
        },
    }
}

/// Where no `|` follows, the union tail closes over what it has.
proof fn lemma_union_tail_stops(s: Seq<char>, pos: int, acc: Seq<SpecExp>)
    requires
        0 <= pos <= s.len(),
        pos == s.len() || s[pos] != '|',
    ensures
        spec_union_tail(s, pos, acc) == Some((spec_union(acc), pos)),
{
}

/// Where no `simpleexp` can begin, the concat tail closes over what it
/// has.
proof fn lemma_concat_tail_stops(s: Seq<char>, pos: int, acc: Seq<SpecExp>)
    requires
        0 <= pos <= s.len(),
        pos == s.len() || !spec_atom_start(s[pos]),
    ensures
        spec_concat_tail(s, pos, acc) == Some((spec_concat(acc), pos)),
{
    assert(spec_simpleexp(s, pos) is None);
    assert(spec_repeatexp(s, pos) is None);
}

/// Concatenation rendering peels off its first parenthesized child.
proof fn lemma_render_concat_step(es: Seq<SpecExp>)
    requires
        es.len() >= 1,
    ensures
        spec_render_children(es, false) == parend(es[0].spec_render()) + spec_render_children(
            es.drop_first(),
            false,
        ),
{
    if es.len() == 1 {
        assert(es.drop_first().len() == 0);
        assert(spec_render_children(es.drop_first(), false) == Seq::<char>::empty());
        assert(spec_render_children(es, false) =~= parend(es[0].spec_render())
            + spec_render_children(es.drop_first(), false));
    } else {
        assert(spec_render_children(es, false) == parend(es[0].spec_render()) + (
        Seq::<char>::empty()) + spec_render_children(es.drop_first(), false));
        assert(parend(es[0].spec_render()) + (Seq::<char>::empty()) + spec_render_children(
            es.drop_first(),
            false,
        ) =~= parend(es[0].spec_render()) + spec_render_children(es.drop_first(), false));
    }
}

/// Union rendering is its first parenthesized branch followed by the
/// `|`-prefixed rest.
proof fn lemma_render_union_step(es: Seq<SpecExp>)
    requires
        es.len() >= 1,
    ensures
        spec_render_children(es, true) == parend(es[0].spec_render()) + spec_render_union_rest(
            es.drop_first(),
        ),
    decreases es.len(),
{
    if es.len() == 1 {
        assert(es.drop_first().len() == 0);
        assert(spec_render_union_rest(es.drop_first()) == Seq::<char>::empty());
        assert(spec_render_children(es, true) =~= parend(es[0].spec_render())
            + spec_render_union_rest(es.drop_first()));
    } else {
        let rest = es.drop_first();
        lemma_render_union_step(rest);
        assert(spec_render_children(es, true) == parend(es[0].spec_render()) + (seq!['|'])
            + spec_render_children(rest, true));
        assert(spec_render_union_rest(rest) == seq!['|'] + parend(rest[0].spec_render())
            + spec_render_union_rest(rest.drop_first()));
        assert(parend(es[0].spec_render()) + (seq!['|']) + spec_render_children(rest, true)
            =~= parend(es[0].spec_render()) + spec_render_union_rest(rest));
    }
}


/// A parenthesized rendering parses as one `simpleexp`, whatever follows.
proof fn lemma_parse_simple(e: SpecExp, s: Seq<char>, pos: int)
    requires
        e.wf(),
        e.lowercase_literals(),
        0 <= pos,
        pos + parend(e.spec_render()).len() <= s.len(),
        s.subrange(pos, pos + parend(e.spec_render()).len()) == parend(e.spec_render()),
    ensures
        spec_simpleexp(s, pos) == Some((e, pos + parend(e.spec_render()).len())),
    decreases e, 3int,
{
    let r = e.spec_render();
    let pr = parend(r);
    let end = pos + pr.len();
    lemma_render_shape(e);
    assert(pr.len() == r.len() + 2);
    assert(s[pos] == '(') by {
        assert(s.subrange(pos, end)[0] == pr[0]);
    }
    assert forall|k: int| 0 <= k < r.len() implies s[pos + 1 + k] == r[k] by {
        assert(s.subrange(pos, end)[1 + k] == pr[1 + k]);
    }
    assert(s[end - 1] == ')') by {
        assert(s.subrange(pos, end)[pr.len() - 1] == pr[pr.len() - 1]);
    }
    assert(!spec_char_lower('('));
    assert(s[pos + 1] == r[0]);
    assert(r[0] != ')');
    assert(s.subrange(pos + 1, pos + 1 + r.len()) =~= r) by {
        assert forall|k: int|
            0 <= k < r.len() implies s.subrange(pos + 1, pos + 1 + r.len())[k] == r[k] by {
            assert(s.subrange(pos + 1, pos + 1 + r.len())[k] == s[pos + 1 + k]);
        }
    }
    lemma_parse_union(e, s, pos + 1);
    let q = pos + 1 + r.len();
    assert(q == end - 1);
    assert(q < s.len());
    assert(s[q] == ')');
    assert(spec_simpleexp(s, pos) == Some((e, q + 1)));
}

/// One parenthesized rendering, followed by nothing a `repeatexp` could
/// continue with, parses as one whole `concatexp`.
proof fn lemma_parse_atom(e: SpecExp, s: Seq<char>, pos: int)
    requires
        e.wf(),
        e.lowercase_literals(),
        0 <= pos,
        pos + parend(e.spec_render()).len() <= s.len(),
        s.subrange(pos, pos + parend(e.spec_render()).len()) == parend(e.spec_render()),
        pos + parend(e.spec_render()).len() == s.len() || (!spec_atom_start(
            s[pos + parend(e.spec_render()).len()],
        ) && s[pos + parend(e.spec_render()).len()] != '*'),
    ensures
        spec_concatexp(s, pos) == Some((e, pos + parend(e.spec_render()).len())),
    decreases e, 4int,
{
    let end = pos + parend(e.spec_render()).len();
    lemma_parse_simple(e, s, pos);
    assert(spec_repeatexp(s, pos) == Some((e, end)));
    lemma_concat_tail_stops(s, end, seq![e]);
    assert(spec_concat(seq![e]) == e);
}

/// The concatenated parenthesized renderings of `es`, followed by nothing
/// a `repeatexp` could continue with, extend a concat tail by exactly
/// `es`.
proof fn lemma_parse_concat_children(es: Seq<SpecExp>, acc: Seq<SpecExp>, s: Seq<char>, pos: int)
    requires
        forall|i: int| 0 <= i < es.len() ==> (#[trigger] es[i]).wf() && es[i].lowercase_literals(),
        0 <= pos,
        pos + spec_render_children(es, false).len() <= s.len(),
        s.subrange(pos, pos + spec_render_children(es, false).len()) == spec_render_children(
            es,
            false,
        ),
        pos + spec_render_children(es, false).len() == s.len() || (!spec_atom_start(
            s[pos + spec_render_children(es, false).len()],
        ) && s[pos + spec_render_children(es, false).len()] != '*'),
    ensures
        spec_concat_tail(s, pos, acc) == Some(
            (spec_concat(acc + es), pos + spec_render_children(es, false).len()),
        ),
    decreases es, 5int,
{
    let end = pos + spec_render_children(es, false).len();
    if es.len() == 0 {
        assert(spec_render_children(es, false) == Seq::<char>::empty());
        assert(end == pos);
        lemma_concat_tail_stops(s, pos, acc);
        assert(acc + es =~= acc);
    } else {
        lemma_render_concat_step(es);
        let pr0 = parend(es[0].spec_render());
        let rest_r = spec_render_children(es.drop_first(), false);
        lemma_subrange_split(s, pos, pr0, rest_r);
        let p0 = pos + pr0.len();
        assert(es[0].wf() && es[0].lowercase_literals());
        lemma_parse_simple(es[0], s, pos);
        if es.drop_first().len() >= 1 {
            lemma_render_concat_step(es.drop_first());
            assert(rest_r[0] == '(');
            assert(s[p0] == '(') by {
                assert(s.subrange(p0, p0 + rest_r.len())[0] == rest_r[0]);
            }
            assert(s[p0] != '*');
        } else {
            assert(rest_r.len() == 0);
            assert(p0 == end);
        }
        assert(spec_repeatexp(s, pos) == Some((es[0], p0)));
        lemma_render_shape(es[0]);
        assert(pos < p0 <= s.len());
        assert forall|i: int|
            0 <= i < es.drop_first().len() implies (#[trigger] es.drop_first()[i]).wf()
                && es.drop_first()[i].lowercase_literals() by {
            assert(es.drop_first()[i] == es[i + 1]);
        }
        vstd::seq::axiom_seq_len_decreases(es, es.drop_first());
        lemma_parse_concat_children(es.drop_first(), acc.push(es[0]), s, p0);
        assert(acc.push(es[0]) + es.drop_first() =~= acc + es);
    }
}

/// The `|`-prefixed parenthesized renderings of `es`, followed by a
/// closing delimiter, extend a union tail by exactly `es`.
proof fn lemma_parse_union_children(es: Seq<SpecExp>, acc: Seq<SpecExp>, s: Seq<char>, pos: int)
    requires
        forall|i: int| 0 <= i < es.len() ==> (#[trigger] es[i]).wf() && es[i].lowercase_literals(),
        0 <= pos,
        pos + spec_render_union_rest(es).len() <= s.len(),
        s.subrange(pos, pos + spec_render_union_rest(es).len()) == spec_render_union_rest(es),
        pos + spec_render_union_rest(es).len() == s.len() || s[pos + spec_render_union_rest(
            es,
        ).len()] == ')',
    ensures
        spec_union_tail(s, pos, acc) == Some(
            (spec_union(acc + es), pos + spec_render_union_rest(es).len()),
        ),
    decreases es, 5int,
{
    let end = pos + spec_render_union_rest(es).len();
    if es.len() == 0 {
        assert(spec_render_union_rest(es) == Seq::<char>::empty());
        assert(end == pos);
        lemma_union_tail_stops(s, pos, acc);
        assert(acc + es =~= acc);
    } else {
        let pr0 = parend(es[0].spec_render());
        let rest_r = spec_render_union_rest(es.drop_first());
        assert(spec_render_union_rest(es) == seq!['|'] + pr0 + rest_r);
        assert(seq!['|'] + pr0 + rest_r =~= seq!['|'] + (pr0 + rest_r));
        lemma_subrange_split(s, pos, seq!['|'], pr0 + rest_r);
        assert(s[pos] == '|') by {
            assert(s.subrange(pos, pos + 1)[0] == (seq!['|'])[0]);
        }
        lemma_subrange_split(s, pos + 1, pr0, rest_r);
        let p0 = pos + 1 + pr0.len();
        assert(es[0].wf() && es[0].lowercase_literals());
        if es.drop_first().len() >= 1 {
            assert(rest_r == seq!['|'] + parend(es.drop_first()[0].spec_render())
                + spec_render_union_rest(es.drop_first().drop_first()));
            assert(rest_r[0] == '|');
            assert(s[p0] == '|') by {
                assert(s.subrange(p0, p0 + rest_r.len())[0] == rest_r[0]);
            }
            assert(!spec_atom_start('|') && '|' != '*');
        } else {
            assert(rest_r.len() == 0);
            assert(p0 == end);
        }
        lemma_parse_atom(es[0], s, pos + 1);
        assert(spec_concatexp(s, pos + 1) == Some((es[0], p0)));
        assert(pos < p0 <= s.len());
        assert forall|i: int|
            0 <= i < es.drop_first().len() implies (#[trigger] es.drop_first()[i]).wf()
                && es.drop_first()[i].lowercase_literals() by {
            assert(es.drop_first()[i] == es[i + 1]);
        }
        vstd::seq::axiom_seq_len_decreases(es, es.drop_first());
        lemma_parse_union_children(es.drop_first(), acc.push(es[0]), s, p0);
        assert(acc.push(es[0]) + es.drop_first() =~= acc + es);
    }
}

/// A rendering followed by a closing delimiter parses as one `unionexp`.
proof fn lemma_parse_union(e: SpecExp, s: Seq<char>, pos: int)
    requires
        e.wf(),
        e.lowercase_literals(),
        0 <= pos,
        pos + e.spec_render().len() <= s.len(),
        s.subrange(pos, pos + e.spec_render().len()) == e.spec_render(),
        pos + e.spec_render().len() == s.len() || s[pos + e.spec_render().len()] == ')',
    ensures
        spec_unionexp(s, pos) == Some((e, pos + e.spec_render().len())),
    decreases e, 2int,
{
    let r = e.spec_render();
    let end = pos + r.len();
    match e {
        SpecExp::Union(es) => {
            lemma_render_union_step(es);
            let pr0 = parend(es[0].spec_render());
            let rest_r = spec_render_union_rest(es.drop_first());
            assert(r == pr0 + rest_r);
            lemma_subrange_split(s, pos, pr0, rest_r);
            let p0 = pos + pr0.len();
            assert(es.drop_first().len() >= 1);
            assert(rest_r == seq!['|'] + parend(es.drop_first()[0].spec_render())
                + spec_render_union_rest(es.drop_first().drop_first()));
            assert(rest_r[0] == '|');
            assert(s[p0] == '|') by {
                assert(s.subrange(p0, p0 + rest_r.len())[0] == rest_r[0]);
            }
            assert(es[0].wf() && es[0].lowercase_literals());
            assert(!spec_atom_start('|') && '|' != '*');
            lemma_parse_atom(es[0], s, pos);
            assert(spec_concatexp(s, pos) == Some((es[0], p0)));
            lemma_render_shape(es[0]);
            assert(pos < p0 <= s.len());
            assert forall|i: int|
                0 <= i < es.drop_first().len() implies (#[trigger] es.drop_first()[i]).wf()
                    && es.drop_first()[i].lowercase_literals() by {
                assert(es.drop_first()[i] == es[i + 1]);
            }
            lemma_parse_union_children(es.drop_first(), seq![es[0]], s, p0);
            assert(seq![es[0]] + es.drop_first() =~= es);
            assert(spec_union(es) == e);
            assert(spec_unionexp(s, pos) == Some((e, end)));
        },
        _ => {
            lemma_parse_concat(e, s, pos);
            lemma_render_shape(e);
            lemma_union_tail_stops(s, end, seq![e]);
            assert(spec_union(seq![e]) == e);
            assert(spec_unionexp(s, pos) == Some((e, end)));
        },
    }
}

/// A rendering of a non-union tree followed by a closing delimiter parses
/// as one `concatexp`.
proof fn lemma_parse_concat(e: SpecExp, s: Seq<char>, pos: int)
    requires
        e.wf(),
        e.lowercase_literals(),
        !(e is Union),
        0 <= pos,
        pos + e.spec_render().len() <= s.len(),
        s.subrange(pos, pos + e.spec_render().len()) == e.spec_render(),
        pos + e.spec_render().len() == s.len() || s[pos + e.spec_render().len()] == ')' || s[pos
            + e.spec_render().len()] == '|',
    ensures
        spec_concatexp(s, pos) == Some((e, pos + e.spec_render().len())),
    decreases e, 1int,
{
    let r = e.spec_render();
    let end = pos + r.len();
    match e {
        SpecExp::Empty => {
            assert(s[pos] == '#') by {
                assert(s.subrange(pos, end)[0] == r[0]);
            }
            assert(!spec_char_lower('#'));
            assert(spec_simpleexp(s, pos) == Some((SpecExp::Empty, pos + 1)));
            assert(spec_repeatexp(s, pos) == Some((SpecExp::Empty, pos + 1)));
            lemma_concat_tail_stops(s, end, seq![e]);
            assert(spec_concat(seq![e]) == e);
        },
        SpecExp::Unit => {
            assert(s[pos] == '(') by {
                assert(s.subrange(pos, end)[0] == r[0]);
            }
            assert(s[pos + 1] == ')') by {
                assert(s.subrange(pos, end)[1] == r[1]);
            }
            assert(!spec_char_lower('('));
            assert(spec_simpleexp(s, pos) == Some((SpecExp::Unit, pos + 2)));
            assert(spec_repeatexp(s, pos) == Some((SpecExp::Unit, pos + 2)));
            lemma_concat_tail_stops(s, end, seq![e]);
            assert(spec_concat(seq![e]) == e);
        },
        SpecExp::Literal(c) => {
            assert(s[pos] == c) by {
                assert(s.subrange(pos, end)[0] == r[0]);
            }
            assert(spec_char_lower(c));
            assert(spec_simpleexp(s, pos) == Some((SpecExp::Literal(c), pos + 1)));
            assert(spec_repeatexp(s, pos) == Some((SpecExp::Literal(c), pos + 1)));
            lemma_concat_tail_stops(s, end, seq![e]);
            assert(spec_concat(seq![e]) == e);
        },
        SpecExp::Concat(es) => {
            lemma_render_concat_step(es);
            let pr0 = parend(es[0].spec_render());
            let rest_r = spec_render_children(es.drop_first(), false);
            lemma_subrange_split(s, pos, pr0, rest_r);
            let p0 = pos + pr0.len();
            assert(es[0].wf() && es[0].lowercase_literals());
            lemma_parse_simple(es[0], s, pos);
            assert(es.drop_first().len() >= 1);
            lemma_render_concat_step(es.drop_first());
            assert(rest_r[0] == '(');
            assert(s[p0] == '(') by {
                assert(s.subrange(p0, p0 + rest_r.len())[0] == rest_r[0]);
            }
            assert(spec_repeatexp(s, pos) == Some((es[0], p0)));
            lemma_render_shape(es[0]);
            assert(pos < p0 <= s.len());
            assert forall|i: int|
                0 <= i < es.drop_first().len() implies (#[trigger] es.drop_first()[i]).wf()
                    && es.drop_first()[i].lowercase_literals() by {
                assert(es.drop_first()[i] == es[i + 1]);
            }
            lemma_parse_concat_children(es.drop_first(), seq![es[0]], s, p0);
            assert(seq![es[0]] + es.drop_first() =~= es);
            assert(spec_concat(es) == e);
        },
        SpecExp::Star(inner) => {
            let pri = parend(inner.spec_render());
            assert(r == pri + seq!['*']);
            lemma_subrange_split(s, pos, pri, seq!['*']);
            let p0 = pos + pri.len();
            assert(s[p0] == '*') by {
                assert(s.subrange(p0, p0 + 1)[0] == (seq!['*'])[0]);
            }
            assert(inner.wf() && inner.lowercase_literals());
            lemma_parse_simple(*inner, s, pos);
            assert(p0 < s.len());
            assert(spec_repeatexp(s, pos) == Some((SpecExp::Star(Box::new(*inner)), p0 + 1)));
            assert(SpecExp::Star(Box::new(*inner)) == e);
            assert(p0 + 1 == end);
            lemma_concat_tail_stops(s, end, seq![e]);
            assert(spec_concat(seq![e]) == e);
        },
        SpecExp::Union(..) => {},
    }
}

/// Round trip: re-parsing the canonical rendering of any well-formed tree
/// whose literals the grammar can express yields exactly that tree.
pub proof fn lemma_render_parse_roundtrip(e: SpecExp)
    requires
        e.wf(),
        e.lowercase_literals(),
    ensures
        spec_parse(e.spec_render()) == Some(e),
{
    let r = e.spec_render();
    assert(r.subrange(0, r.len() as int) =~= r);
    lemma_parse_union(e, r, 0);
}

/// Parses `input` as one whole pattern, or reports the position at which
/// parsing stopped: the start of the unparsable remainder, or the start
/// of the input when no prefix parses at all.
pub fn parse_regexp(input: &str) -> (r: Result<RegExp, ParseError>)
    ensures
        r matches Ok(t) ==> spec_parse(input@) == Some(t.to_spec()) && t.to_spec().wf(),
        (r is Err) == (spec_parse(input@) is None),
        r matches Err(pe) ==> match spec_unionexp(input@, 0) {
            Some(ep) => pe.position == ep.1,
            None => pe.position == 0,
        },
{
    let n = input.unicode_len();
    match regexp(input, 0) {
        Some((t, p)) => {
            if p == n {
                Ok(t)
            } else {
                Err(ParseError { position: p })
            }
        },
        None => Err(ParseError { position: 0 }),
    }
}

} // verus!
