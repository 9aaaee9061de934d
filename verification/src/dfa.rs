//! The explicit deterministic automaton: a fixed-size table with one
//! initial index, an acceptance flag per state, and a total transition row
//! per alphabet symbol. Validation happens once, at construction; a
//! validated table can never fail mid-walk on an alphabet symbol.

use vstd::prelude::*;

use crate::error::MatchError;
use crate::error::ValidationError;

verus! {

/// The transition row labelled `c`, if any: rows are searched in order,
/// and a validated table labels no two rows alike.
pub open spec fn spec_row_lookup(rows: Seq<(char, Vec<usize>)>, c: char) -> Option<Seq<usize>>
    decreases rows.len(),
{
    if rows.len() == 0 {
        None
    } else if rows[0].0 == c {
        Some(rows[0].1@)
    } else {
        spec_row_lookup(rows.drop_first(), c)
    }
}

/// What construction validates: initial index in range, one acceptance
/// flag per state, no symbol labelling two rows, every row total (one
/// entry per state) and every entry a state index.
pub open spec fn spec_valid_dfa(
    size: usize,
    initial_state: usize,
    accepted: Seq<bool>,
    transitions: Seq<(char, Vec<usize>)>,
) -> bool {
    &&& initial_state < size
    &&& accepted.len() == size
    &&& forall|a: int, b: int|
        0 <= a < b < transitions.len() ==> (#[trigger] transitions[a]).0 != (
        #[trigger] transitions[b]).0
    &&& forall|a: int| 0 <= a < transitions.len() ==> (#[trigger] transitions[a]).1@.len() == size
    &&& forall|a: int, s: int|
        0 <= a < transitions.len() && 0 <= s < transitions[a].1@.len() ==> (
        #[trigger] transitions[a].1@[s]) < size
}

/// A construction error names a violation actually present in the parts
/// it was built from.
pub open spec fn spec_dfa_error_fits(
    e: ValidationError,
    size: usize,
    initial_state: usize,
    accepted: Seq<bool>,
    transitions: Seq<(char, Vec<usize>)>,
) -> bool {
    match e {
        ValidationError::InitialStateOutOfRange { initial_state: i, size: n } => i == initial_state
            && n == size && i >= n,
        ValidationError::AcceptedLengthMismatch { len, size: n } => len == accepted.len() && n
            == size && len != n,
        ValidationError::DuplicateSymbol { symbol } => exists|a: int, b: int|
            0 <= a < b < transitions.len() && (#[trigger] transitions[a]).0 == symbol && (
            #[trigger] transitions[b]).0 == symbol,
        ValidationError::RowLengthMismatch { symbol, len, size: n } => n == size && len != n
            && exists|a: int|
            0 <= a < transitions.len() && (#[trigger] transitions[a]).0 == symbol
                && transitions[a].1@.len() == len,
        ValidationError::TargetOutOfRange { target, size: n } => n == size && target >= n
            && exists|a: int, s: int|
            0 <= a < transitions.len() && 0 <= s < transitions[a].1@.len() && (
            #[trigger] transitions[a].1@[s]) == target,
        _ => false,
    }
}

/// The explicit deterministic automaton. Immutable once constructed, so
/// the validated invariant holds for its whole lifetime.
pub struct Dfa {
    size: usize,
    initial_state: usize,
    accepted: Vec<bool>,
    transitions: Vec<(char, Vec<usize>)>,
}

impl Dfa {
    /// The construction-time invariant, permanent because nothing mutates
    /// a built table.
    pub closed spec fn wf(self) -> bool {
        spec_valid_dfa(self.size, self.initial_state, self.accepted@, self.transitions@)
    }

    /// Number of states.
    pub closed spec fn spec_size(self) -> usize {
        self.size
    }

    /// The designated initial state index.
    pub closed spec fn spec_initial(self) -> usize {
        self.initial_state
    }

    /// Whether state `s` is accepting.
    pub closed spec fn spec_accepted(self, s: int) -> bool {
        self.accepted@[s]
    }

    /// The transition row for `c`, if `c` is an alphabet symbol.
    pub closed spec fn spec_row(self, c: char) -> Option<Seq<usize>> {
        spec_row_lookup(self.transitions@, c)
    }

    /// The declared alphabet: the symbols that label a transition row.
    pub open spec fn spec_alphabet(self) -> Set<char> {
        Set::new(|c: char| self.spec_row(c) is Some)
    }

    /// The unique successor of state `s` on symbol `c`.
    pub open spec fn spec_delta(self, s: int, c: char) -> int {
        self.spec_row(c).unwrap()[s] as int
    }

    /// The state reached from `s` after consuming all of `w`.
    pub open spec fn spec_walk(self, s: int, w: Seq<char>) -> int
        decreases w.len(),
    {
        if w.len() == 0 {
            s
        } else {
            self.spec_walk(self.spec_delta(s, w[0]), w.drop_first())
        }
    }

    /// Validates the parts and builds the table; construction succeeds
    /// exactly on valid parts, and a returned error names a violation
    /// present in them.
    pub fn new(
        size: usize,
        initial_state: usize,
        accepted: Vec<bool>,
        transitions: Vec<(char, Vec<usize>)>,
    ) -> (r: Result<Dfa, ValidationError>)
        ensures
            r is Ok <==> spec_valid_dfa(size, initial_state, accepted@, transitions@),
            r matches Ok(d) ==> {
                &&& d.wf()
                &&& d.spec_size() == size
                &&& d.spec_initial() == initial_state
                &&& forall|s: int| 0 <= s < size ==> d.spec_accepted(s) == accepted@[s]
                &&& forall|c: char| d.spec_row(c) == spec_row_lookup(transitions@, c)
            },
            r matches Err(e) ==> spec_dfa_error_fits(e, size, initial_state, accepted@,
                transitions@),
    {
        if initial_state >= size {
            return Err(ValidationError::InitialStateOutOfRange { initial_state, size });
        }
        if accepted.len() != size {
            return Err(ValidationError::AcceptedLengthMismatch { len: accepted.len(), size });
        }
        let mut k: usize = 0;
        while k < transitions.len()
            invariant
                k <= transitions.len(),
                initial_state < size,
                accepted@.len() == size,
                forall|a: int, b: int|
                    0 <= a < b < k ==> (#[trigger] transitions@[a]).0 != (
                    #[trigger] transitions@[b]).0,
                forall|a: int| 0 <= a < k ==> (#[trigger] transitions@[a]).1@.len() == size,
                forall|a: int, s: int|
                    0 <= a < k && 0 <= s < transitions@[a].1@.len() ==> (
                    #[trigger] transitions@[a].1@[s]) < size,
            decreases transitions.len() - k,
        {
            let symbol = transitions[k].0;
            let mut j: usize = 0;
            while j < k
                invariant
                    j <= k < transitions.len(),
                    symbol == transitions@[k as int].0,
                    forall|a: int| 0 <= a < j ==> (#[trigger] transitions@[a]).0 != symbol,
                decreases k - j,
            {
                if transitions[j].0 == symbol {
                    return Err(ValidationError::DuplicateSymbol { symbol });
                }
                j = j + 1;
            }
            let row_len = transitions[k].1.len();
            if row_len != size {
                return Err(ValidationError::RowLengthMismatch { symbol, len: row_len, size });
            }
            let mut s: usize = 0;
            while s < row_len
                invariant
                    s <= row_len,
                    k < transitions.len(),
                    row_len == transitions@[k as int].1@.len(),
                    forall|t: int| 0 <= t < s ==> (#[trigger] transitions@[k as int].1@[t]) < size,
                decreases row_len - s,
            {
                let target = transitions[k].1[s];
                if target >= size {
                    return Err(ValidationError::TargetOutOfRange { target, size });
                }
                s = s + 1;
            }
            k = k + 1;
        }
        Ok(Dfa { size, initial_state, accepted, transitions })
    }

    /// Walks the total table from the initial index over `input`; accepts
    /// iff the final index is flagged accepting. Fails, atomically and
    /// exactly, on the first symbol outside the alphabet.
    pub fn run(&self, input: &str) -> (r: Result<bool, MatchError>)
        requires
            self.wf(),
        ensures
            r matches Ok(b) ==> (forall|i: int|
                0 <= i < input@.len() ==> self.spec_alphabet().contains(#[trigger] input@[i])) && b
                == self.spec_accepted(self.spec_walk(self.spec_initial() as int, input@)),
            r matches Err(e) ==> exists|p: int|
                0 <= p < input@.len() && !self.spec_alphabet().contains(#[trigger] input@[p]) && (
                forall|j: int| 0 <= j < p ==> self.spec_alphabet().contains(#[trigger] input@[j]))
                    && e == (MatchError::UnknownSymbol { symbol: input@[p], position: p as usize }),
            (r is Err) == exists|i: int|
                0 <= i < input@.len() && !self.spec_alphabet().contains(#[trigger] input@[i]),
    {
        let n = input.unicode_len();
        let mut state = self.initial_state;
        let mut i: usize = 0;
        while i < n
            invariant
                self.wf(),
                i <= n,
                n == input@.len(),
                state < self.spec_size(),
                state as int == self.spec_walk(self.spec_initial() as int, input@.take(i as int)),
                forall|j: int| 0 <= j < i ==> self.spec_alphabet().contains(#[trigger] input@[j]),
            decreases n - i,
        {
            let c = input.get_char(i);
            match self.lookup_row(c) {
                None => {
                    return Err(MatchError::UnknownSymbol { symbol: c, position: i });
                },
                Some(row) => {
                    proof {
                        lemma_row_lookup_mem(self.transitions@, c);
                        assert(row@.len() == self.spec_size());
                        lemma_walk_push(
                            *self,
                            self.spec_initial() as int,
                            input@.take(i as int),
                            c,
                        );
                        assert(input@.take(i as int).push(c) =~= input@.take(i as int + 1));
                    }
                    state = row[state];
                },
            }
            i = i + 1;
        }
        proof {
            assert(input@.take(n as int) =~= input@);
        }
        Ok(self.accepted[state])
    }

    /// Number of states.
    pub fn size(&self) -> (s: usize)
        ensures
            s == self.spec_size(),
    {
        self.size
    }

    /// The alphabet symbols, one per transition row, in table order.
    pub fn alphabet(&self) -> (r: Vec<char>)
        ensures
            forall|c: char| r@.contains(c) <==> self.spec_alphabet().contains(c),
    {
        let mut r: Vec<char> = Vec::new();
        let mut k: usize = 0;
        while k < self.transitions.len()
            invariant
                k <= self.transitions@.len(),
                r@.len() == k,
                forall|j: int| 0 <= j < k ==> r@[j] == (#[trigger] self.transitions@[j]).0,
            decreases self.transitions@.len() - k,
        {
            r.push(self.transitions[k].0);
            k = k + 1;
        }
        proof {
            assert forall|c: char| r@.contains(c) <==> self.spec_alphabet().contains(c) by {
                if r@.contains(c) {
                    let j = choose|j: int| 0 <= j < r@.len() && r@[j] == c;
                    lemma_row_symbol_in_alphabet(self.transitions@, j);
                }
                if self.spec_alphabet().contains(c) {
                    lemma_row_lookup_mem(self.transitions@, c);
                    let j = choose|j: int|
                        0 <= j < self.transitions@.len() && (#[trigger] self.transitions@[j]).0
                            == c && self.transitions@[j].1@ == spec_row_lookup(
                            self.transitions@,
                            c,
                        ).unwrap();
                    assert(r@[j] == c);
                }
            }
        }
        r
    }

    fn lookup_row(&self, c: char) -> (r: Option<&Vec<usize>>)
        ensures
            r matches Some(row) ==> self.spec_row(c) == Some(row@),
            r is None ==> self.spec_row(c) is None,
    {
        proof {
            assert(self.transitions@.skip(0) =~= self.transitions@);
        }
        let mut k: usize = 0;
        while k < self.transitions.len()
            invariant
                k <= self.transitions@.len(),
                spec_row_lookup(self.transitions@.skip(k as int), c) == spec_row_lookup(
                    self.transitions@,
                    c,
                ),
            decreases self.transitions@.len() - k,
        {
            proof {
                assert(self.transitions@.skip(k as int)[0] == self.transitions@[k as int]);
                assert(self.transitions@.skip(k as int).drop_first() =~= self.transitions@.skip(
                    k as int + 1,
                ));
            }
            if self.transitions[k].0 == c {
                return Some(&self.transitions[k].1);
            }
            k = k + 1;
        }
        proof {
            assert(self.transitions@.skip(self.transitions@.len() as int) =~= Seq::<(
                char,
                Vec<usize>,
            )>::empty());
        }
        None
    }
}

/// A symbol labelling any row is an alphabet symbol: looking it up
/// succeeds.
proof fn lemma_row_symbol_in_alphabet(rows: Seq<(char, Vec<usize>)>, j: int)
    requires
        0 <= j < rows.len(),
    ensures
        spec_row_lookup(rows, rows[j].0) is Some,
    decreases rows.len(),
{
    if rows[0].0 != rows[j].0 {
        assert(rows.drop_first()[j - 1] == rows[j]);
        lemma_row_symbol_in_alphabet(rows.drop_first(), j - 1);
    }
}

/// A successful row lookup hands back one of the table's own rows.
proof fn lemma_row_lookup_mem(rows: Seq<(char, Vec<usize>)>, c: char)
    requires
        spec_row_lookup(rows, c) is Some,
    ensures
        exists|k: int|
            0 <= k < rows.len() && (#[trigger] rows[k]).0 == c && rows[k].1@ == spec_row_lookup(
                rows,
                c,
            ).unwrap(),
    decreases rows.len(),
{
    if rows.len() > 0 && rows[0].0 != c {
        lemma_row_lookup_mem(rows.drop_first(), c);
        let k0 = choose|k: int|
            0 <= k < rows.drop_first().len() && (#[trigger] rows.drop_first()[k]).0 == c
                && rows.drop_first()[k].1@ == spec_row_lookup(rows.drop_first(), c).unwrap();
        assert(rows[k0 + 1] == rows.drop_first()[k0]);
    }
}

/// Consuming one more symbol applies one more table step.
proof fn lemma_walk_push(d: Dfa, s: int, w: Seq<char>, c: char)
    ensures
        d.spec_walk(s, w.push(c)) == d.spec_delta(d.spec_walk(s, w), c),
    decreases w.len(),
{
    if w.len() == 0 {
        assert(w.push(c)[0] == c);
        assert(w.push(c).drop_first() =~= Seq::<char>::empty());
        assert(d.spec_walk(s, w.push(c)) == d.spec_walk(d.spec_delta(s, c), Seq::<char>::empty()));
        assert(d.spec_walk(d.spec_delta(s, c), Seq::<char>::empty()) == d.spec_delta(s, c));
        assert(d.spec_walk(s, w) == s);
    } else {
        assert(w.push(c)[0] == w[0]);
        assert(w.push(c).drop_first() =~= w.drop_first().push(c));
        lemma_walk_push(d, d.spec_delta(s, w[0]), w.drop_first(), c);
        assert(d.spec_walk(s, w.push(c)) == d.spec_walk(
            d.spec_delta(s, w[0]),
            w.drop_first().push(c),
        ));
        assert(d.spec_walk(s, w) == d.spec_walk(d.spec_delta(s, w[0]), w.drop_first()));
    }
}

/// Totality: in a validated deterministic automaton, every state has on
/// every alphabet symbol exactly one successor — `spec_delta` is a total
/// function there — and that successor is again a state of the automaton.
pub proof fn lemma_dfa_totality(d: Dfa, s: int, c: char)
    requires
        d.wf(),
        0 <= s < d.spec_size(),
        d.spec_alphabet().contains(c),
    ensures
        0 <= d.spec_delta(s, c) < d.spec_size(),
{
    lemma_row_lookup_mem(d.transitions@, c);
}

} // verus!
