//! One cell of the board: the states it may still take, and how far it has
//! been settled.

use crate::candidates::{lemma_listed_len, CandidateSet, CAPACITY};
use crate::random::{choose_weighted, lemma_total_weight_bound, total_weight};
use rand::rngs::StdRng;
use vstd::prelude::*;
use vstd::set_lib::*;

verus! {

/// The states a cell may still take: one bit for each state.
pub type CellState = CandidateSet;

/// A cell of a board with `N` states.
///
/// A cell starts out `Unknown` with a set of candidates, is `Reduced` once
/// one state has been fixed for it, and is `Collapsed` once that state counts
/// as settled towards its neighbours. Of the stored set only the members
/// below `N` count.
#[derive(Clone, Copy, Debug)]
pub enum Cell<const N: usize> {
    Unknown(CandidateSet),
    Reduced(CandidateSet, usize),
    Collapsed(CandidateSet, usize),
}

/// The mathematical content of a [`Cell`]: its stage, the candidates that
/// count, and the state it has been fixed to.
pub enum CellView {
    Unknown(Set<int>),
    Reduced(Set<int>, usize),
    Collapsed(Set<int>, usize),
}

/// Drawing a state failed: no candidate of the cell has a positive weight.
#[derive(Clone, Copy, Debug, PartialEq, Eq)]
pub struct NoCandidateError;

/// The members of `bits` that count for a cell with `states` states.
pub open spec fn counted(bits: CandidateSet, states: usize) -> Set<int> {
    bits@.intersect(set_int_range(0, states as int))
}

/// The view of a cell that has not been touched: every state is a candidate,
/// as far as the capacity of a candidate set reaches.
pub open spec fn fresh(states: usize) -> CellView {
    CellView::Unknown(
        set_int_range(0, if states <= CAPACITY { states as int } else { CAPACITY as int }),
    )
}

/// `pairs` names some of `candidates` in rising order, each with a weight
/// that `weights` can give it.
pub open spec fn weighed<W: Fn(&usize) -> usize>(
    weights: W,
    candidates: Set<int>,
    pairs: Seq<(usize, usize)>,
) -> bool {
    &&& forall|j: int, k: int|
        #![trigger pairs[j], pairs[k]]
        0 <= j < k < pairs.len() ==> pairs[j].0 < pairs[k].0
    &&& forall|k: int|
        0 <= k < pairs.len() ==> candidates.contains((#[trigger] pairs[k]).0 as int)
            && call_ensures(weights, (&pairs[k].0,), pairs[k].1)
}

/// The weights that `weights` can give to `candidates` add up within
/// `usize`.
pub open spec fn weights_fit<W: Fn(&usize) -> usize>(weights: W, candidates: Set<int>) -> bool {
    forall|pairs: Seq<(usize, usize)>| #[trigger]
        weighed(weights, candidates, pairs) ==> total_weight(pairs) <= usize::MAX
}

/// What is asked of a weight function for cells of `states` states: it can
/// be called on every state, and the weights of all states add up within
/// `usize`.
pub open spec fn weights_ok<W: Fn(&usize) -> usize>(weights: W, states: usize) -> bool {
    &&& forall|s: usize| s < states ==> call_requires(weights, (&s,))
    &&& weights_fit(weights, set_int_range(0, states as int))
}

/// Weights that fit for a set of candidates fit for fewer.
pub proof fn lemma_weights_fit_subset<W: Fn(&usize) -> usize>(
    weights: W,
    more: Set<int>,
    fewer: Set<int>,
)
    requires
        weights_fit(weights, more),
        fewer.subset_of(more),
    ensures
        weights_fit(weights, fewer),
{
    assert forall|pairs: Seq<(usize, usize)>| #[trigger]
        weighed(weights, fewer, pairs) implies total_weight(pairs) <= usize::MAX by {
        assert(weighed(weights, more, pairs));
    }
}

/// The `k`th of states named in rising order is at least `k`.
proof fn lemma_rising(pairs: Seq<(usize, usize)>, k: int)
    requires
        forall|a: int, b: int|
            #![trigger pairs[a], pairs[b]]
            0 <= a < b < pairs.len() ==> pairs[a].0 < pairs[b].0,
        0 <= k < pairs.len(),
    ensures
        pairs[k].0 >= k,
    decreases k,
{
    if k > 0 {
        lemma_rising(pairs, k - 1);
        assert(pairs[k - 1].0 < pairs[k].0);
    }
}

/// Weights of at most one each fit for the states of any cell.
pub proof fn lemma_unit_weights_fit<W: Fn(&usize) -> usize>(weights: W, states: usize)
    requires
        forall|s: usize, w: usize| #[trigger] call_ensures(weights, (&s,), w) ==> w <= 1,
    ensures
        weights_fit(weights, set_int_range(0, states as int)),
{
    assert forall|pairs: Seq<(usize, usize)>| #[trigger]
        weighed(weights, set_int_range(0, states as int), pairs) implies total_weight(pairs)
        <= usize::MAX by {
        lemma_total_weight_bound(pairs, 1);
        if pairs.len() > 0 {
            let last = pairs.len() - 1;
            lemma_rising(pairs, last);
            assert(set_int_range(0, states as int).contains(pairs[last].0 as int));
        }
        assert(pairs.len() * 1 == pairs.len()) by (nonlinear_arith);
    }
}

impl CellView {
    /// The candidates of the cell.
    pub open spec fn domain(self) -> Set<int> {
        match self {
            CellView::Unknown(d) => d,
            CellView::Reduced(d, _) => d,
            CellView::Collapsed(d, _) => d,
        }
    }

    /// The state the cell has been fixed to, if any.
    pub open spec fn value(self) -> Option<usize> {
        match self {
            CellView::Unknown(_) => None,
            CellView::Reduced(_, v) => Some(v),
            CellView::Collapsed(_, v) => Some(v),
        }
    }

    /// Whether a state has been fixed for the cell.
    pub open spec fn is_settled(self) -> bool {
        !(self is Unknown)
    }

    /// The number of states still open: the search heuristic.
    pub open spec fn entropy(self) -> nat {
        match self {
            CellView::Unknown(d) => d.len(),
            CellView::Reduced(_, _) => 1,
            CellView::Collapsed(_, _) => 0,
        }
    }

    /// A `Reduced` cell becomes `Collapsed`; any other stays as it is.
    pub open spec fn collapse(self) -> CellView {
        match self {
            CellView::Reduced(d, v) => CellView::Collapsed(d, v),
            other => other,
        }
    }

    /// Takes the `forbidden` states away from an `Unknown` cell. Nothing is
    /// left: no cell. One state is left: the cell is `Reduced` to it. A cell
    /// that is not `Unknown` is returned as it is.
    pub open spec fn reduce(self, forbidden: Set<int>) -> Option<CellView> {
        match self {
            CellView::Unknown(d) => {
                let rest = d.difference(forbidden);
                if rest.len() == 0 {
                    None
                } else if rest.len() == 1 {
                    Some(CellView::Reduced(rest, rest.choose() as usize))
                } else {
                    Some(CellView::Unknown(rest))
                }
            },
            other => Some(other),
        }
    }

    /// Whether a filled board can hold `state` in this cell: it is a
    /// candidate of an `Unknown` cell, or the state of a settled one.
    pub open spec fn admits(self, state: usize) -> bool {
        match self {
            CellView::Unknown(d) => d.contains(state as int),
            CellView::Reduced(_, v) => state == v,
            CellView::Collapsed(_, v) => state == v,
        }
    }

    /// The cell without the `barred` states among its candidates, while it
    /// is `Unknown`; a settled cell as it is.
    pub open spec fn without(self, barred: Set<int>) -> CellView {
        match self {
            CellView::Unknown(d) => CellView::Unknown(d.difference(barred)),
            other => other,
        }
    }

    /// The candidates are states of a cell with `states` states.
    pub open spec fn within(self, states: usize) -> bool {
        self.domain().subset_of(set_int_range(0, states as int))
    }

    /// The cell is one that the state machine produces: an `Unknown` cell has
    /// at least two candidates, a settled one exactly the state it was fixed
    /// to.
    pub open spec fn wf(self, states: usize) -> bool {
        &&& self.within(states)
        &&& match self {
            CellView::Unknown(d) => d.len() >= 2,
            CellView::Reduced(d, v) => d == set![v as int],
            CellView::Collapsed(d, v) => d == set![v as int],
        }
    }

    /// `self` can have come from `earlier` by settling: no candidate was
    /// added, and a state once fixed has stayed.
    pub open spec fn refines(self, earlier: CellView) -> bool {
        &&& self.domain().subset_of(earlier.domain())
        &&& earlier.is_settled() ==> self.is_settled() && self.value() == earlier.value()
    }

    /// A cell whose candidates are states has finitely many of them.
    pub proof fn lemma_within_finite(self, states: usize)
        requires
            self.within(states),
        ensures
            self.domain().finite(),
            self.domain().len() <= states,
    {
        lemma_int_range(0, states as int);
        lemma_len_subset(self.domain(), set_int_range(0, states as int));
    }

    /// While a cell is `Unknown` its candidates only get fewer under
    /// `reduce`, and it leaves `Unknown` at once when fewer than two are
    /// left: with one it is `Reduced`, with none there is no cell.
    pub proof fn lemma_reduce_shrinks(self, forbidden: Set<int>, states: usize)
        requires
            self is Unknown,
            self.within(states),
        ensures
            self.domain().difference(forbidden).len() == 0 <==> self.reduce(forbidden) is None,
            self.reduce(forbidden) matches Some(next) ==> {
                &&& next.domain() == self.domain().difference(forbidden)
                &&& next.domain().subset_of(self.domain())
                &&& next.refines(self)
                &&& next.wf(states)
                &&& next is Unknown <==> next.domain().len() >= 2
                &&& next is Reduced <==> next.domain().len() == 1
            },
    {
        let rest = self.domain().difference(forbidden);
        self.lemma_within_finite(states);
        lemma_len_subset(rest, self.domain());
        if rest.len() == 1 {
            Set::lemma_is_singleton(rest);
            assert(rest.contains(rest.choose()));
            assert(rest =~= set![rest.choose()]);
            assert(rest.choose() as usize as int == rest.choose());
        }
    }

    /// Across two calls of `reduce` the candidates of the second result are
    /// among those of the first, and those among the candidates at the start;
    /// a cell that has left `Unknown` is not changed again.
    pub proof fn lemma_reduce_twice(self, first: Set<int>, second: Set<int>, states: usize)
        requires
            self.within(states),
            self.reduce(first) is Some,
        ensures
            self.reduce(first).unwrap().within(states),
            self.reduce(first).unwrap().domain().subset_of(self.domain()),
            self.is_settled() ==> self.reduce(first) == Some(self),
            self.reduce(first).unwrap().reduce(second) matches Some(last) ==> {
                &&& last.domain().subset_of(self.reduce(first).unwrap().domain())
                &&& last.refines(self.reduce(first).unwrap())
                &&& self.reduce(first).unwrap().is_settled() ==> last == self.reduce(first).unwrap()
            },
    {
        if self is Unknown {
            self.lemma_reduce_shrinks(first, states);
        }
        let mid = self.reduce(first).unwrap();
        if mid is Unknown {
            mid.lemma_reduce_shrinks(second, states);
        }
    }

    /// The entropy of a cell of `states` states is at most `states`; it is 0
    /// for a `Collapsed` cell, 1 for a `Reduced` one, and at least 2 for an
    /// `Unknown` cell that the state machine produced.
    pub proof fn lemma_entropy_bounds(self, states: usize)
        requires
            self.within(states),
        ensures
            self.entropy() <= states || self is Reduced,
            self is Collapsed ==> self.entropy() == 0,
            self is Reduced ==> self.entropy() == 1,
            self is Unknown && self.wf(states) ==> self.entropy() >= 2,
            self.wf(states) ==> self.entropy() <= states,
    {
        self.lemma_within_finite(states);
        if self.wf(states) && self is Reduced {
            assert(self.domain().len() == 1);
        }
    }

    /// What `reduce` returns is a cell that the state machine produces,
    /// whenever it was given one, or any `Unknown` cell.
    pub proof fn lemma_reduce_wf(self, forbidden: Set<int>, states: usize)
        requires
            self.within(states),
            self is Unknown || self.wf(states),
        ensures
            self.reduce(forbidden) matches Some(next) ==> next.wf(states),
    {
        if self is Unknown {
            self.lemma_reduce_shrinks(forbidden, states);
        }
    }

    /// Forbidding nothing that is a candidate leaves a cell as it is.
    pub proof fn lemma_reduce_nothing(self, forbidden: Set<int>, states: usize)
        requires
            self.wf(states),
            self.domain().disjoint(forbidden),
        ensures
            self.reduce(forbidden) == Some(self),
    {
        assert(self.domain().difference(forbidden) =~= self.domain());
    }

    /// A state that a cell admits, and that is not forbidden, is admitted
    /// by what `reduce` makes of the cell.
    pub proof fn lemma_reduce_admits(self, forbidden: Set<int>, states: usize, state: usize)
        requires
            self.within(states),
            self.admits(state),
            !forbidden.contains(state as int),
        ensures
            self.reduce(forbidden) matches Some(next) && next.admits(state),
    {
        if self is Unknown {
            let rest = self.domain().difference(forbidden);
            assert(rest.contains(state as int));
            self.lemma_within_finite(states);
            lemma_len_subset(rest, self.domain());
            if rest.len() == 0 {
                assert(rest =~= Set::<int>::empty());
            }
            if rest.len() == 1 {
                Set::lemma_is_singleton(rest);
                assert(rest.contains(rest.choose()));
            }
        }
    }

    /// Collapsing keeps the candidates, the fixed state and well-formedness.
    pub proof fn lemma_collapse(self, states: usize)
        ensures
            self.collapse().domain() == self.domain(),
            self.collapse().value() == self.value(),
            self.collapse().refines(self),
            self.wf(states) ==> self.collapse().wf(states),
            !(self.collapse() is Reduced),
            forall|state: usize| self.collapse().admits(state) == self.admits(state),
    {
    }
}

impl<const N: usize> View for Cell<N> {
    type V = CellView;

    open spec fn view(&self) -> CellView {
        match *self {
            Cell::Unknown(bits) => CellView::Unknown(counted(bits, N)),
            Cell::Reduced(bits, v) => CellView::Reduced(counted(bits, N), v),
            Cell::Collapsed(bits, v) => CellView::Collapsed(counted(bits, N), v),
        }
    }
}

/// Weighs each of `options` with `weights`.
fn weigh<W: Fn(&usize) -> usize>(options: &Vec<usize>, weights: &W) -> (r: Vec<(usize, usize)>)
    requires
        forall|k: int| 0 <= k < options@.len() ==> call_requires(*weights, (&options@[k],)),
    ensures
        r@.len() == options@.len(),
        forall|k: int|
            0 <= k < r@.len() ==> (#[trigger] r@[k]).0 == options@[k] && call_ensures(
                *weights,
                (&options@[k],),
                r@[k].1,
            ),
{
    let mut r: Vec<(usize, usize)> = Vec::new();
    let mut k: usize = 0;
    while k < options.len()
        invariant
            k <= options.len(),
            r@.len() == k,
            forall|j: int| 0 <= j < options@.len() ==> call_requires(*weights, (&options@[j],)),
            forall|j: int|
                0 <= j < r@.len() ==> (#[trigger] r@[j]).0 == options@[j] && call_ensures(
                    *weights,
                    (&options@[j],),
                    r@[j].1,
                ),
        decreases options.len() - k,
    {
        let state: usize = options[k];
        let weight: usize = weights(&state);
        r.push((state, weight));
        k += 1;
    }
    r
}

impl<const N: usize> Cell<N> {
    /// The stored set, with the members that do not count.
    pub open spec fn bits(self) -> CandidateSet {
        match self {
            Cell::Unknown(bits) => bits,
            Cell::Reduced(bits, _) => bits,
            Cell::Collapsed(bits, _) => bits,
        }
    }

    /// The candidates of a cell are states below `N`, finitely many.
    pub proof fn lemma_view_within(self)
        ensures
            self@.within(N),
            self@.domain().finite(),
            self@.domain().len() <= N,
            self@.domain() == counted(self.bits(), N),
    {
        self@.lemma_within_finite(N);
    }

    /// Removes the states of `reduction` from an `Unknown` cell. Returns
    /// nothing when no candidate is left, the cell `Reduced` to the last
    /// candidate when one is left, and the cell with the fewer candidates
    /// otherwise. A cell that is not `Unknown` comes back unchanged.
    pub fn reduce(self, reduction: CellState) -> (r: Option<Self>)
        ensures
            match r {
                Some(cell) => self@.reduce(reduction@) == Some(cell@),
                None => self@.reduce(reduction@) is None,
            },
            !(self is Unknown) ==> r == Some(self),
            self is Unknown ==> (r matches Some(cell) ==> cell.bits()@ == self.bits()@.difference(
                reduction@,
            )),
    {
        match self {
            Cell::Unknown(state) => {
                let rest = state.difference(reduction);
                let left = rest.members_below(N);
                proof {
                    lemma_listed_len(left@, counted(rest, N));
                    assert(counted(rest, N) =~= counted(state, N).difference(reduction@));
                    self.lemma_view_within();
                    self@.lemma_reduce_shrinks(reduction@, N);
                }
                if left.len() == 0 {
                    None
                } else if left.len() == 1 {
                    let value: usize = left[0];
                    proof {
                        let d = counted(rest, N);
                        Set::lemma_is_singleton(d);
                        assert(d.contains(left@[0] as int));
                        assert(d.contains(d.choose()));
                    }
                    Some(Cell::Reduced(rest, value))
                } else {
                    Some(Cell::Unknown(rest))
                }
            },
            cell => Some(cell),
        }
    }

    /// Draws one of the candidates, each with a chance in proportion to its
    /// weight. Fails when no candidate has a positive weight, so always on a
    /// cell without candidates.
    pub fn draw<W: Fn(&usize) -> usize>(&self, weights: &W, rng: &mut StdRng) -> (r: Result<
        usize,
        NoCandidateError,
    >)
        requires
            forall|s: usize| self@.domain().contains(s as int) ==> call_requires(*weights, (&s,)),
            weights_fit(*weights, self@.domain()),
        ensures
            r matches Ok(v) ==> {
                &&& v < N
                &&& v < CAPACITY
                &&& self@.domain().contains(v as int)
                &&& exists|w: usize| w > 0 && call_ensures(*weights, (&v,), w)
            },
            r is Err ==> forall|s: usize|
                self@.domain().contains(s as int) ==> call_ensures(*weights, (&s,), 0usize),
    {
        let state = self.state();
        let options = state.members_below(N);
        let weighted = weigh(&options, weights);
        proof {
            lemma_listed_len(options@, counted(state, N));
            self.lemma_view_within();
            state.lemma_bounded();
            assert(weighed(*weights, self@.domain(), weighted@)) by {
                assert forall|j: int, k: int|
                    #![trigger weighted@[j], weighted@[k]]
                    0 <= j < k < weighted@.len() implies weighted@[j].0 < weighted@[k].0 by {
                    assert(options@[j] < options@[k]);
                }
                assert forall|k: int| 0 <= k < weighted@.len() implies self@.domain().contains(
                    (#[trigger] weighted@[k]).0 as int,
                ) && call_ensures(*weights, (&weighted@[k].0,), weighted@[k].1) by {
                    assert(counted(state, N).contains(options@[k] as int));
                }
            }
        }
        match choose_weighted(&weighted, rng) {
            Ok(pick) => {
                proof {
                    let k = choose|k: int| 0 <= k < weighted@.len() && weighted@[k] == pick;
                    assert(weighted@[k].0 == options@[k]);
                    assert(counted(state, N).contains(options@[k] as int));
                }
                Ok(pick.0)
            },
            Err(_) => {
                proof {
                    assert forall|s: usize| self@.domain().contains(s as int) implies call_ensures(
                        *weights,
                        (&s,),
                        0usize,
                    ) by {
                        let k = choose|k: int|
                            0 <= k < options@.len() && #[trigger] options@[k] == s as int;
                        assert(weighted@[k].1 == 0);
                    }
                }
                Err(NoCandidateError)
            },
        }
    }

    /// Fixes an `Unknown` cell to one of its candidates, drawn with a chance
    /// in proportion to its weight. Fails when no candidate has a positive
    /// weight, so always on a cell without candidates. A cell that is not
    /// `Unknown` comes back unchanged.
    pub fn observe<W: Fn(&usize) -> usize>(self, weights: &W, rng: &mut StdRng) -> (r: Result<
        Self,
        NoCandidateError,
    >)
        requires
            self is Unknown ==> forall|s: usize|
                self@.domain().contains(s as int) ==> call_requires(*weights, (&s,)),
            self is Unknown ==> weights_fit(*weights, self@.domain()),
        ensures
            !(self is Unknown) ==> r == Ok::<Self, NoCandidateError>(self),
            !(self is Unknown) ==> *final(rng) == *old(rng),
            self is Unknown ==> (r matches Ok(cell) ==> {
                &&& cell matches Cell::Reduced(bits, v)
                &&& bits@ == set![v as int]
                &&& self@.domain().contains(v as int)
                &&& cell@ == CellView::Reduced(set![v as int], v)
                &&& exists|w: usize| w > 0 && call_ensures(*weights, (&v,), w)
            }),
            self is Unknown ==> (r is Err ==> forall|s: usize|
                self@.domain().contains(s as int) ==> call_ensures(*weights, (&s,), 0usize)),
    {
        match self {
            Cell::Unknown(_) => {
                match self.draw(weights, rng) {
                    Ok(v) => Ok(Self::reduced(v)),
                    Err(e) => Err(e),
                }
            },
            cell => Ok(cell),
        }
    }

    /// A `Reduced` cell as a `Collapsed` one; any other cell as it is.
    pub open spec fn spec_collapse(self) -> Self {
        match self {
            Cell::Reduced(bits, v) => Cell::Collapsed(bits, v),
            other => other,
        }
    }

    /// Turns a `Reduced` cell into a `Collapsed` one: its state now counts as
    /// settled. Any other cell comes back unchanged.
    #[verifier::when_used_as_spec(spec_collapse)]
    pub fn collapse(self) -> (r: Self)
        ensures
            r == self.spec_collapse(),
            r@ == self@.collapse(),
    {
        match self {
            Cell::Reduced(bits, v) => Cell::Collapsed(bits, v),
            other => other,
        }
    }

    /// The number of states still open: the candidates of an `Unknown` cell
    /// that count, 1 for a `Reduced` cell, 0 for a `Collapsed` one.
    pub fn entropy(&self) -> (r: usize)
        ensures
            r == self@.entropy(),
            self is Unknown || N >= 1 ==> r <= N,
    {
        match self {
            Cell::Unknown(state) => {
                let options = state.members_below(N);
                proof {
                    lemma_listed_len(options@, counted(*state, N));
                    self.lemma_view_within();
                }
                options.len()
            },
            Cell::Reduced(_, _) => 1,
            Cell::Collapsed(_, _) => 0,
        }
    }

    pub fn is_unknown(&self) -> (r: bool)
        ensures
            r == (self is Unknown),
            r == !self@.is_settled(),
    {
        match self {
            Cell::Unknown(_) => true,
            _ => false,
        }
    }

    pub fn is_reduced(&self) -> (r: bool)
        ensures
            r == (self is Reduced),
            r == (self@ is Reduced),
    {
        match self {
            Cell::Reduced(_, _) => true,
            _ => false,
        }
    }

    pub fn is_collapsed(&self) -> (r: bool)
        ensures
            r == (self is Collapsed),
            r == (self@ is Collapsed),
    {
        match self {
            Cell::Collapsed(_, _) => true,
            _ => false,
        }
    }

    /// An `Unknown` cell with the candidates of `state`.
    pub fn unknown(state: CellState) -> (r: Self)
        ensures
            r == Cell::<N>::Unknown(state),
    {
        Cell::Unknown(state)
    }

    /// A cell `Reduced` to state `n`.
    pub fn reduced(n: usize) -> (r: Self)
        requires
            n < CAPACITY,
        ensures
            r matches Cell::Reduced(bits, v) && v == n && bits@ == set![n as int],
            n < N ==> r@ == CellView::Reduced(set![n as int], n) && r@.wf(N),
    {
        let bits = CandidateSet::singleton(n);
        proof {
            if n < N {
                assert(counted(bits, N) =~= set![n as int]);
            }
        }
        Cell::Reduced(bits, n)
    }

    /// A cell `Collapsed` to state `n`.
    pub fn collapsed(n: usize) -> (r: Self)
        requires
            n < CAPACITY,
        ensures
            r matches Cell::Collapsed(bits, v) && v == n && bits@ == set![n as int],
            n < N ==> r@ == CellView::Collapsed(set![n as int], n) && r@.wf(N),
    {
        let bits = CandidateSet::singleton(n);
        proof {
            if n < N {
                assert(counted(bits, N) =~= set![n as int]);
            }
        }
        Cell::Collapsed(bits, n)
    }

    /// The state the cell has been fixed to, if any.
    pub fn value(&self) -> (r: Option<usize>)
        ensures
            r == self@.value(),
    {
        match self {
            Cell::Unknown(_) => None,
            Cell::Reduced(_, n) => Some(*n),
            Cell::Collapsed(_, n) => Some(*n),
        }
    }

    /// The stored set of candidates.
    pub fn state(&self) -> (r: CellState)
        ensures
            r == self.bits(),
            counted(r, N) == self@.domain(),
    {
        match self {
            Cell::Unknown(state) => *state,
            Cell::Reduced(state, _) => *state,
            Cell::Collapsed(state, _) => *state,
        }
    }
}

impl<const N: usize> Default for Cell<N> {
    /// An `Unknown` cell with every state as a candidate, as far as the
    /// capacity of a candidate set reaches.
    fn default() -> (r: Self)
        ensures
            r is Unknown,
            r@ == fresh(N),
            r.bits()@ == fresh(N).domain(),
    {
        let bits = CandidateSet::full(N);
        proof {
            assert(counted(bits, N) =~= bits@);
        }
        Cell::Unknown(bits)
    }
}

} // verus!
