//! The expression tree: an immutable value representing a parsed pattern,
//! its smart constructors, and the canonical fully-parenthesized rendering.
//!
//! The mathematical model of a tree is a [`SpecExp`], a ghost mirror in
//! which child lists are sequences; every contract about trees speaks of
//! that model.

use vstd::prelude::*;

verus! {

/// Ghost model of an expression tree; child lists are `Seq`s so that
/// contracts and proofs can speak of them directly.
pub enum SpecExp {
    Empty,
    Unit,
    Literal(char),
    Concat(Seq<SpecExp>),
    Union(Seq<SpecExp>),
    Star(Box<SpecExp>),
}

impl SpecExp {
    /// The structural invariant every tree built through the smart
    /// constructors satisfies: `Concat` and `Union` hold at least two
    /// children.
    pub open spec fn wf(self) -> bool
        decreases self,
    {
        match self {
            SpecExp::Empty => true,
            SpecExp::Unit => true,
            SpecExp::Literal(_) => true,
            SpecExp::Concat(es) => es.len() >= 2 && (forall|i: int|
                0 <= i < es.len() ==> (#[trigger] es[i]).wf()),
            SpecExp::Union(es) => es.len() >= 2 && (forall|i: int|
                0 <= i < es.len() ==> (#[trigger] es[i]).wf()),
            SpecExp::Star(e) => e.wf(),
        }
    }

    /// Every literal in the tree is drawn from the character set the
    /// textual grammar can express.
    pub open spec fn lowercase_literals(self) -> bool
        decreases self,
    {
        match self {
            SpecExp::Empty => true,
            SpecExp::Unit => true,
            SpecExp::Literal(c) => 'a' <= c && c <= 'z',
            SpecExp::Concat(es) => forall|i: int|
                0 <= i < es.len() ==> (#[trigger] es[i]).lowercase_literals(),
            SpecExp::Union(es) => forall|i: int|
                0 <= i < es.len() ==> (#[trigger] es[i]).lowercase_literals(),
            SpecExp::Star(e) => e.lowercase_literals(),
        }
    }

    /// The canonical textual form: `#` for `Empty`, `()` for `Unit`, the
    /// character itself for a literal, every composite child wrapped in
    /// parentheses, `|` between union branches, and a trailing `*` on a
    /// parenthesized star body.
    pub open spec fn spec_render(self) -> Seq<char>
        decreases self,
    {
        match self {
            SpecExp::Empty => seq!['#'],
            SpecExp::Unit => seq!['(', ')'],
            SpecExp::Literal(c) => seq![c],
            SpecExp::Concat(es) => spec_render_children(es, false),
            SpecExp::Union(es) => spec_render_children(es, true),
            SpecExp::Star(e) => parend(e.spec_render()) + seq!['*'],
        }
    }
}

/// `s` wrapped in parentheses.
pub open spec fn parend(s: Seq<char>) -> Seq<char> {
    seq!['('] + s + seq![')']
}

/// Renders each child parenthesized, with `|` between children when
/// `with_bar` is set (union) and nothing between them otherwise (concat).
pub open spec fn spec_render_children(es: Seq<SpecExp>, with_bar: bool) -> Seq<char>
    decreases es,
{
    if es.len() == 0 {
        Seq::empty()
    } else if es.len() == 1 {
        parend(es[0].spec_render())
    } else {
        parend(es[0].spec_render()) + (if with_bar {
            seq!['|']
        } else {
            Seq::empty()
        }) + spec_render_children(es.drop_first(), with_bar)
    }
}

/// The expression tree as built and consumed by executable code; its
/// model is [`SpecExp`].
#[derive(Debug, PartialEq, Eq, Hash)]
pub enum RegExp {
    Empty,
    Unit,
    Literal(char),
    Concat(Vec<RegExp>),
    Union(Vec<RegExp>),
    Star(Box<RegExp>),
}

impl RegExp {
    /// The ghost model of this tree.
    pub open spec fn to_spec(self) -> SpecExp
        decreases self,
    {
        match self {
            RegExp::Empty => SpecExp::Empty,
            RegExp::Unit => SpecExp::Unit,
            RegExp::Literal(c) => SpecExp::Literal(c),
            RegExp::Concat(rs) => SpecExp::Concat(children_to_spec(rs@)),
            RegExp::Union(rs) => SpecExp::Union(children_to_spec(rs@)),
            RegExp::Star(r) => SpecExp::Star(Box::new((*r).to_spec())),
        }
    }
}

/// The ghost models of a child list, in order.
pub open spec fn children_to_spec(rs: Seq<RegExp>) -> Seq<SpecExp>
    decreases rs,
{
    if rs.len() == 0 {
        Seq::empty()
    } else {
        seq![rs[0].to_spec()] + children_to_spec(rs.drop_first())
    }
}

/// What `concat` builds, at the level of models: the empty list collapses
/// to `Unit`, a singleton to its only element.
pub open spec fn spec_concat(es: Seq<SpecExp>) -> SpecExp {
    if es.len() == 0 {
        SpecExp::Unit
    } else if es.len() == 1 {
        es[0]
    } else {
        SpecExp::Concat(es)
    }
}

/// What `union` builds, at the level of models: the empty list collapses
/// to `Empty`, a singleton to its only element.
pub open spec fn spec_union(es: Seq<SpecExp>) -> SpecExp {
    if es.len() == 0 {
        SpecExp::Empty
    } else if es.len() == 1 {
        es[0]
    } else {
        SpecExp::Union(es)
    }
}

/// Appending a child appends its model.
pub proof fn lemma_children_to_spec_push(rs: Seq<RegExp>, x: RegExp)
    ensures
        children_to_spec(rs.push(x)) == children_to_spec(rs).push(x.to_spec()),
{
    lemma_children_to_spec(rs);
    lemma_children_to_spec(rs.push(x));
    assert forall|i: int| 0 <= i < rs.len() + 1 implies children_to_spec(rs.push(x))[i]
        == children_to_spec(rs).push(x.to_spec())[i] by {
        if i < rs.len() {
            assert(rs.push(x)[i] == rs[i]);
        } else {
            assert(rs.push(x)[i] == x);
        }
    }
    assert(children_to_spec(rs.push(x)) =~= children_to_spec(rs).push(x.to_spec()));
}

/// Well-formedness of each child model follows from well-formedness of
/// each child.
pub proof fn lemma_children_wf(rs: Seq<RegExp>)
    requires
        forall|i: int| 0 <= i < rs.len() ==> (#[trigger] rs[i]).to_spec().wf(),
    ensures
        forall|i: int|
            0 <= i < children_to_spec(rs).len() ==> (#[trigger] children_to_spec(rs)[i]).wf(),
{
    lemma_children_to_spec(rs);
    assert forall|i: int|
        0 <= i < children_to_spec(rs).len() implies (#[trigger] children_to_spec(rs)[i]).wf() by {
        assert(children_to_spec(rs)[i] == rs[i].to_spec());
        assert(rs[i].to_spec().wf());
    }
}

/// `children_to_spec` maps the list elementwise.
pub proof fn lemma_children_to_spec(rs: Seq<RegExp>)
    ensures
        children_to_spec(rs).len() == rs.len(),
        forall|i: int| 0 <= i < rs.len() ==> children_to_spec(rs)[i] == (#[trigger] rs[i]).to_spec(),
    decreases rs,
{
    if rs.len() > 0 {
        lemma_children_to_spec(rs.drop_first());
        assert forall|i: int| 0 <= i < rs.len() implies children_to_spec(rs)[i] == (
        #[trigger] rs[i]).to_spec() by {
            if i > 0 {
                assert(rs.drop_first()[i - 1] == rs[i]);
            }
        }
    }
}

/// The tree matching no string at all.
pub fn empty() -> (r: RegExp)
    ensures
        r == RegExp::Empty,
{
    RegExp::Empty
}

/// The tree matching exactly the empty string.
pub fn unit() -> (r: RegExp)
    ensures
        r == RegExp::Unit,
{
    RegExp::Unit
}

/// The tree matching exactly the one-symbol string `x`.
pub fn literal(x: char) -> (r: RegExp)
    ensures
        r == RegExp::Literal(x),
{
    RegExp::Literal(x)
}

/// Concatenation of `res` in order; collapses an empty list to `Unit` and
/// a singleton to its only element, so a built `Concat` always holds at
/// least two children.
pub fn concat(res: Vec<RegExp>) -> (r: RegExp)
    ensures
        r.to_spec() == spec_concat(children_to_spec(res@)),
        res@.len() >= 2 ==> r == RegExp::Concat(res),
        (forall|i: int| 0 <= i < res@.len() ==> (#[trigger] res@[i]).to_spec().wf())
            ==> r.to_spec().wf(),
{
    proof {
        lemma_children_to_spec(res@);
        if forall|i: int| 0 <= i < res@.len() ==> (#[trigger] res@[i]).to_spec().wf() {
            lemma_children_wf(res@);
        }
    }
    let mut res = res;
    if res.len() == 0 {
        RegExp::Unit
    } else if res.len() == 1 {
        let only = res.pop().unwrap();
        proof {
            assert(children_to_spec(res@.push(only))[0] == only.to_spec());
        }
        only
    } else {
        RegExp::Concat(res)
    }
}

/// Union of the alternatives `res` in order; collapses an empty list to
/// `Empty` and a singleton to its only element, so a built `Union` always
/// holds at least two children.
pub fn union(res: Vec<RegExp>) -> (r: RegExp)
    ensures
        r.to_spec() == spec_union(children_to_spec(res@)),
        res@.len() >= 2 ==> r == RegExp::Union(res),
        (forall|i: int| 0 <= i < res@.len() ==> (#[trigger] res@[i]).to_spec().wf())
            ==> r.to_spec().wf(),
{
    proof {
        lemma_children_to_spec(res@);
        if forall|i: int| 0 <= i < res@.len() ==> (#[trigger] res@[i]).to_spec().wf() {
            lemma_children_wf(res@);
        }
    }
    let mut res = res;
    if res.len() == 0 {
        RegExp::Empty
    } else if res.len() == 1 {
        let only = res.pop().unwrap();
        proof {
            assert(children_to_spec(res@.push(only))[0] == only.to_spec());
        }
        only
    } else {
        RegExp::Union(res)
    }
}

/// Zero-or-more repetitions of `re`.
pub fn star(re: RegExp) -> (r: RegExp)
    ensures
        r == RegExp::Star(Box::new(re)),
        r.to_spec() == SpecExp::Star(Box::new(re.to_spec())),
{
    RegExp::Star(Box::new(re))
}

/// Relies on `String`'s `FromIterator<char>` impl: collecting characters
/// yields the string holding exactly those characters in order.
#[verifier::external_body]
fn chars_to_string(v: &Vec<char>) -> (r: String)
    ensures
        r@ == v@,
{
    v.iter().collect()
}

impl RegExp {
    /// The canonical fully-parenthesized textual form of this tree.
    pub fn render(&self) -> (r: String)
        ensures
            r@ == self.to_spec().spec_render(),
    {
        let mut out: Vec<char> = Vec::new();
        self.render_into(&mut out);
        chars_to_string(&out)
    }

    fn render_into(&self, out: &mut Vec<char>)
        ensures
            final(out)@ == old(out)@ + self.to_spec().spec_render(),
        decreases *self,
    {
        match self {
            RegExp::Empty => {
                out.push('#');
                assert(final(out)@ =~= old(out)@ + seq!['#']);
            },
            RegExp::Unit => {
                out.push('(');
                out.push(')');
                assert(final(out)@ =~= old(out)@ + seq!['(', ')']);
            },
            RegExp::Literal(c) => {
                out.push(*c);
                assert(final(out)@ =~= old(out)@ + seq![*c]);
            },
            RegExp::Concat(rs) => {
                render_children(rs, false, out);
            },
            RegExp::Union(rs) => {
                render_children(rs, true, out);
            },
            RegExp::Star(r) => {
                out.push('(');
                r.render_into(out);
                out.push(')');
                out.push('*');
                assert(final(out)@ =~= old(out)@ + (parend((*r).to_spec().spec_render())
                    + seq!['*']));
            },
        }
    }
}

fn render_children(rs: &Vec<RegExp>, with_bar: bool, out: &mut Vec<char>)
    ensures
        final(out)@ == old(out)@ + spec_render_children(children_to_spec(rs@), with_bar),
    decreases *rs,
{
    let ghost es = children_to_spec(rs@);
    proof {
        lemma_children_to_spec(rs@);
    }
    proof {
        assert(es.skip(0) =~= es);
    }
    let mut i: usize = 0;
    while i < rs.len()
        invariant
            i <= rs.len(),
            es == children_to_spec(rs@),
            es.len() == rs@.len(),
            forall|j: int| 0 <= j < rs@.len() ==> es[j] == (#[trigger] rs@[j]).to_spec(),
            old(out)@ + spec_render_children(es, with_bar) == out@ + spec_render_children(
                es.skip(i as int),
                with_bar,
            ),
        decreases rs.len() - i,
    {
        let ghost before = out@;
        out.push('(');
        rs[i].render_into(out);
        out.push(')');
        let last = i == rs.len() - 1;
        if with_bar && !last {
            out.push('|');
        }
        proof {
            let suff = es.skip(i as int);
            let rest = es.skip(i as int + 1);
            let piece = parend(es[i as int].spec_render());
            assert(suff[0] == es[i as int]);
            assert(suff.drop_first() =~= rest);
            if last {
                assert(suff.len() == 1);
                assert(spec_render_children(suff, with_bar) == piece);
                assert(rest =~= Seq::<SpecExp>::empty());
                assert(out@ =~= before + piece);
                assert(before + spec_render_children(suff, with_bar) =~= out@
                    + spec_render_children(rest, with_bar));
            } else {
                let sep: Seq<char> = if with_bar {
                    seq!['|']
                } else {
                    Seq::empty()
                };
                assert(spec_render_children(suff, with_bar) == piece + sep
                    + spec_render_children(suff.drop_first(), with_bar));
                assert(out@ =~= before + (piece + sep));
                assert(before + spec_render_children(suff, with_bar) =~= out@
                    + spec_render_children(rest, with_bar));
            }
        }
        i = i + 1;
    }
    proof {
        assert(es.skip(rs@.len() as int) =~= Seq::empty());
        assert(spec_render_children(Seq::empty(), with_bar) =~= Seq::<char>::empty());
        assert(out@ + Seq::<char>::empty() =~= out@);
    }
}

} // verus!
