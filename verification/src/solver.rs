//! The solver: propagation of constraints to a fixpoint, choice of the cell
//! with the fewest candidates, random commitment, and backtracking.

use crate::board::{
    assigned_among, cells_in, fits, lemma_fit_settled_among, lemma_load_lt, lemma_refined_load,
    lemma_refines_trans, lemma_search_bound_le, lemma_search_bound_split,
    lemma_stack_bound_push, list_cells, refines, search_bound, settled_among, stack_bound,
    unknown_total, valid_board, views, Stage,
};
use crate::board::{
    all_well_formed, lemma_fresh_wf, lemma_open_load, lemma_settled_board_fits,
    lemma_valid_state, lemma_without_nothing, states_of, well_formed, without,
};
use crate::rules::{lemma_hopeless_open, lemma_keeps_open};
use crate::candidates::{lemma_listed_len, lemma_lists_push, lists, CandidateSet};
use crate::candidates::CAPACITY;
use crate::cell::{
    counted, fresh, lemma_unit_weights_fit, lemma_weights_fit_subset, weights_ok, Cell, CellView,
};
use crate::random::{choose_one, fresh_generator, seeded_generator};
use crate::rules::{
    at_rest, covering, hopeless, keeps, kept_well, lawful, lemma_at_rest_same,
    lemma_covering_pop, lemma_covering_push, lemma_covering_step, lemma_lawful_keep,
    lemma_lawful_root, lemma_lawful_settle, lemma_permits_same, lemma_stable_same,
    neighbors_ok, permits, positive, reducer_ok, rested, same_states, solves, stable, timely,
    well_recorded,
};
use rand::rngs::StdRng;
use vstd::prelude::*;
use vstd::set_lib::*;

verus! {

/// The state of the solver at a given time: one cell for each place on the
/// board.
pub type SolverState<const N: usize, const S: usize> = [Cell<N>; S];

/// The solver has run out of choices to take back: the board cannot be
/// filled.
#[derive(Clone, Copy, Debug, PartialEq, Eq)]
pub struct Unsatisfiable;

/// The weight of every state when none is given: all states are equally
/// likely.
pub fn uniform(_state: &usize) -> (w: usize)
    ensures
        w == 1,
{
    1
}

/// The search at `board` with `snapshots` kept goes on from the one at
/// `earlier_board` with `earlier` kept: either nothing was taken back and the
/// board came from the earlier one by settling, or the boards kept are the
/// first of the earlier ones and the board came from the next of them.
pub open spec fn resumes(
    board: Seq<CellView>,
    snapshots: Seq<Seq<CellView>>,
    earlier_board: Seq<CellView>,
    earlier: Seq<Seq<CellView>>,
) -> bool {
    ||| snapshots == earlier && refines(board, earlier_board)
    ||| {
        &&& snapshots.len() < earlier.len()
        &&& snapshots == earlier.take(snapshots.len() as int)
        &&& refines(board, earlier[snapshots.len() as int])
    }
}

/// The candidate sets of a row, as sets.
pub open spec fn sets_of<const S: usize>(row: [CandidateSet; S]) -> Seq<Set<int>> {
    Seq::new(S as nat, |j: int| row[j]@)
}

/// From `board` with `snapshots` kept, fixing cell `i` to its candidate
/// `value` gives `next_board` with `next_snapshots` kept: the cell is
/// `Reduced` to `value`, and the board as it was is kept on top.
pub open spec fn fixes(
    board: Seq<CellView>,
    snapshots: Seq<Seq<CellView>>,
    i: int,
    value: usize,
    next_board: Seq<CellView>,
    next_snapshots: Seq<Seq<CellView>>,
) -> bool {
    &&& 0 <= i < board.len()
    &&& board[i] is Unknown
    &&& board[i].domain().contains(value as int)
    &&& next_board == board.update(i, CellView::Reduced(set![value as int], value))
    &&& next_snapshots == snapshots.push(board)
}

/// With `barred` the states barred on the board and `barreds` those barred
/// on the boards kept, trying `value` for cell `i` leaves `next_barred` and
/// `next_barreds`: the state was not barred, nothing more is barred on the
/// board, and the board kept on top has `value` barred for the cell as well,
/// so that it is not tried from there again.
pub open spec fn bars(
    barred: Seq<Set<int>>,
    barreds: Seq<Seq<Set<int>>>,
    i: int,
    value: usize,
    next_barred: Seq<Set<int>>,
    next_barreds: Seq<Seq<Set<int>>>,
) -> bool {
    &&& !barred[i].contains(value as int)
    &&& next_barred == barred
    &&& next_barreds == barreds.push(barred.update(i, barred[i].insert(value as int)))
}

/// The cells of `board` below `end` that are `Unknown` with the fewest
/// candidates among the `Unknown` cells below `end`.
pub open spec fn lowest_before(board: Seq<CellView>, end: int) -> Set<int> {
    Set::new(
        |i: int|
            0 <= i < end && i < board.len() && board[i] is Unknown && forall|j: int|
                0 <= j < end && j < board.len() && (#[trigger] board[j]) is Unknown
                    ==> board[i].entropy() <= board[j].entropy(),
    )
}

/// The `Unknown` cells of `board` with the fewest candidates.
pub open spec fn lowest_cells(board: Seq<CellView>) -> Set<int> {
    lowest_before(board, board.len() as int)
}

/// The direction and distance to pan.
#[derive(Clone, Copy, Debug)]
pub enum Pan {
    Left(usize),
    Right(usize),
    Up(usize),
    Down(usize),
}

/// Whether `d` rows of `row_len` cells fit into `room` cells.
proof fn lemma_rows_fit(d: int, room: int, row_len: int)
    requires
        0 <= d,
        0 <= room,
        0 < row_len,
    ensures
        d <= room / row_len <==> d * row_len <= room,
{
    vstd::arithmetic::div_mod::lemma_fundamental_div_mod(room, row_len);
    vstd::arithmetic::div_mod::lemma_mod_bound(room, row_len);
    let q = room / row_len;
    let r = room % row_len;
    if d <= q {
        assert(d * row_len <= q * row_len) by (nonlinear_arith)
            requires
                0 <= d <= q,
                0 < row_len,
        ;
        assert(q * row_len == row_len * q) by (nonlinear_arith);
    } else {
        assert(d * row_len >= (q + 1) * row_len) by (nonlinear_arith)
            requires
                d >= q + 1,
                0 < row_len,
        ;
        assert((q + 1) * row_len == row_len * q + row_len) by (nonlinear_arith);
    }
}

impl Pan {
    /// The cell that cell `i` takes its content from, on a board of `len`
    /// cells in rows of `row_len`: the cell that lies the distance away
    /// against the direction, so to the left for `Right`, to the right for
    /// `Left`, below for `Up` and above for `Down`. Nothing where that cell
    /// would lie outside the row, for `Left` and `Right`, or outside the
    /// board.
    pub open spec fn source(self, row_len: int, len: int, i: int) -> Option<int> {
        match self {
            Pan::Right(d) => if d <= i % row_len {
                Some(i - d)
            } else {
                None
            },
            Pan::Left(d) => if i % row_len + d < row_len && i + d < len {
                Some(i + d)
            } else {
                None
            },
            Pan::Down(d) => if d * row_len <= i {
                Some(i - d * row_len)
            } else {
                None
            },
            Pan::Up(d) => if i + d * row_len < len {
                Some(i + d * row_len)
            } else {
                None
            },
        }
    }

    /// A source is a cell of the board.
    pub proof fn lemma_source_in_board(self, row_len: int, len: int, i: int)
        requires
            row_len > 0,
            0 <= i < len,
        ensures
            self.source(row_len, len, i) matches Some(j) ==> 0 <= j < len,
    {
        vstd::arithmetic::div_mod::lemma_fundamental_div_mod(i, row_len);
        vstd::arithmetic::div_mod::lemma_mod_bound(i, row_len);
        assert(0 <= row_len * (i / row_len)) by (nonlinear_arith)
            requires
                0 <= i,
                0 < row_len,
        ;
        match self {
            Pan::Down(d) => {
                assert(0 <= d * row_len) by (nonlinear_arith)
                    requires
                        0 <= d,
                        0 < row_len,
                ;
            },
            Pan::Up(d) => {
                assert(0 <= d * row_len) by (nonlinear_arith)
                    requires
                        0 <= d,
                        0 < row_len,
                ;
            },
            _ => {},
        }
    }

    /// Whether the sources lie at or after their destinations, so that the
    /// cells have to be filled in rising order.
    pub open spec fn reads_ahead(self) -> bool {
        self is Left || self is Up
    }

    /// The cell that cell `i` takes its content from, if there is one.
    pub fn source_of(&self, row_len: usize, len: usize, i: usize) -> (r: Option<usize>)
        requires
            row_len > 0,
            i < len,
        ensures
            match r {
                Some(j) => self.source(row_len as int, len as int, i as int) == Some(j as int),
                None => self.source(row_len as int, len as int, i as int) is None,
            },
            r matches Some(j) ==> j < len && (if self.reads_ahead() {
                i <= j
            } else {
                j <= i
            }),
    {
        proof {
            self.lemma_source_in_board(row_len as int, len as int, i as int);
        }
        match self {
            Pan::Right(d) => {
                if *d <= i % row_len {
                    Some(i - *d)
                } else {
                    None
                }
            },
            Pan::Left(d) => {
                if *d < row_len - i % row_len && *d < len - i {
                    Some(i + *d)
                } else {
                    None
                }
            },
            Pan::Down(d) => {
                proof {
                    lemma_rows_fit(*d as int, i as int, row_len as int);
                }
                if *d <= i / row_len {
                    Some(i - *d * row_len)
                } else {
                    None
                }
            },
            Pan::Up(d) => {
                proof {
                    lemma_rows_fit(*d as int, len - 1 - i, row_len as int);
                }
                if *d <= (len - 1 - i) / row_len {
                    Some(i + *d * row_len)
                } else {
                    None
                }
            },
        }
    }
}

/// The board after panning: each cell holds what its source held, and
/// `blank` where it has no source.
pub open spec fn panned<A>(board: Seq<A>, pan: Pan, row_len: int, blank: A) -> Seq<A> {
    Seq::new(
        board.len(),
        |i: int|
            match pan.source(row_len, board.len() as int, i) {
                Some(j) => board[j],
                None => blank,
            },
    )
}

/// Panning right by a distance and then left by the same brings back every
/// cell that lies at least the distance from the end of its row, and leaves
/// the cells after that blank. With distance 0, where no cell reads outside
/// its row, the board is as it was.
pub proof fn lemma_pan_right_left<A>(board: Seq<A>, distance: usize, row_len: int, blank: A)
    requires
        row_len > 0,
    ensures
        panned(
            panned(board, Pan::Right(distance), row_len, blank),
            Pan::Left(distance),
            row_len,
            blank,
        ) == Seq::new(
            board.len(),
            |i: int|
                if i % row_len + distance < row_len && i + distance < board.len() {
                    board[i]
                } else {
                    blank
                },
        ),
        distance == 0 ==> panned(
            panned(board, Pan::Right(distance), row_len, blank),
            Pan::Left(distance),
            row_len,
            blank,
        ) == board,
{
    let d = distance as int;
    let there = panned(board, Pan::Right(distance), row_len, blank);
    let back = panned(there, Pan::Left(distance), row_len, blank);
    let kept = Seq::new(
        board.len(),
        |i: int|
            if i % row_len + distance < row_len && i + distance < board.len() {
                board[i]
            } else {
                blank
            },
    );
    assert forall|i: int| 0 <= i < board.len() implies back[i] == kept[i] by {
        vstd::arithmetic::div_mod::lemma_mod_bound(i, row_len);
        if i % row_len + d < row_len && i + d < board.len() {
            vstd::arithmetic::div_mod::lemma_fundamental_div_mod(i, row_len);
            let q = i / row_len;
            assert(i + d == q * row_len + (i % row_len + d)) by (nonlinear_arith)
                requires
                    i == row_len * q + i % row_len,
            ;
            vstd::arithmetic::div_mod::lemma_fundamental_div_mod_converse(
                i + d,
                row_len,
                q,
                i % row_len + d,
            );
            assert(d <= (i + d) % row_len);
            assert(there[i + d] == board[i]);
        }
    }
    assert(back =~= kept);
    if distance == 0 {
        assert forall|i: int| 0 <= i < board.len() implies kept[i] == board[i] by {
            vstd::arithmetic::div_mod::lemma_mod_bound(i, row_len);
        }
        assert(kept =~= board);
    }
}

/// Solves a constraint problem on a board of `S` cells with `N` states each
/// by wave function collapse with backtracking.
pub struct Solver<NF, RF, WF, const N: usize, const S: usize> {
    /// The board as it stands.
    state: [Cell<N>; S],
    /// The boards to go back to, the latest last.
    history: Vec<[Cell<N>; S]>,
    /// For each cell, the states that were tried on the board as it stands
    /// and given up.
    barred: [CandidateSet; S],
    /// The same for each board kept, with the state that was tried from it.
    barred_history: Vec<[CandidateSet; S]>,
    /// Names the cells next to a cell.
    neighbors: NF,
    /// Names the states a cell cannot take, given its settled neighbours.
    reducer: RF,
    /// Weighs a state for the random choice.
    weights: WF,
    /// The source of the random choices.
    rng: StdRng,
    /// The board that the search started from.
    root: Ghost<Seq<CellView>>,
    /// The time at which each cell of the board was settled.
    order: Ghost<Seq<nat>>,
    /// The same for each board kept.
    orders: Ghost<Seq<Seq<nat>>>,
    /// The time of the next settlement.
    clock: Ghost<nat>,
    /// How many boards, at the bottom of the history, were kept without
    /// having been propagated.
    loose: Ghost<nat>,
    /// Whether such a board has been taken up again.
    tainted: Ghost<bool>,
    /// The choices made: each cell chosen, with the board it was chosen on.
    picks: Ghost<Seq<(Seq<CellView>, usize)>>,
}

impl<NF, RF, WF, const N: usize, const S: usize> Solver<NF, RF, WF, N, S> where
    NF: Fn(usize) -> Vec<usize>,
    RF: Fn(Vec<(usize, usize)>, usize) -> CandidateSet,
    WF: Fn(&usize) -> usize,
 {
    /// The cells of the board.
    pub closed spec fn cells(&self) -> Seq<Cell<N>> {
        self.state@
    }

    /// The board.
    pub open spec fn board(&self) -> Seq<CellView> {
        views(self.cells())
    }

    /// The boards kept to go back to, the latest last.
    pub closed spec fn snapshots(&self) -> Seq<Seq<CellView>> {
        Seq::new(self.history@.len(), |k: int| views(self.history@[k]@))
    }

    /// For each cell, the states barred on the board as it stands: they
    /// were tried on it and given up, and are not drawn again.
    pub closed spec fn barred(&self) -> Seq<Set<int>> {
        sets_of(self.barred)
    }

    /// The states barred on each board kept.
    pub closed spec fn barreds(&self) -> Seq<Seq<Set<int>>> {
        Seq::new(self.barred_history@.len(), |k: int| sets_of(self.barred_history@[k]))
    }

    /// What of the board is still open to the search: the board without the
    /// barred states.
    pub open spec fn open_board(&self) -> Seq<CellView> {
        without(self.board(), self.barred())
    }

    /// What of each board kept is still open to the search.
    pub open spec fn open_snapshots(&self) -> Seq<Seq<CellView>> {
        Seq::new(self.snapshots().len(), |k: int| without(self.snapshots()[k], self.barreds()[k]))
    }

    /// The choices made so far: each cell chosen to be fixed, with the board
    /// it was chosen on.
    pub closed spec fn picks(&self) -> Seq<(Seq<CellView>, usize)> {
        self.picks@
    }

    /// The random generator.
    pub closed spec fn generator(&self) -> StdRng {
        self.rng
    }

    /// The board that the search started from.
    pub closed spec fn root(&self) -> Seq<CellView> {
        self.root@
    }

    /// The neighbour function.
    pub closed spec fn topology(&self) -> NF {
        self.neighbors
    }

    /// The reducer.
    pub closed spec fn constraint(&self) -> RF {
        self.reducer
    }

    /// The weight function.
    pub closed spec fn weighting(&self) -> WF {
        self.weights
    }

    /// The time at which each cell of the board was settled.
    pub closed spec fn order(&self) -> Seq<nat> {
        self.order@
    }

    /// The times at which the cells of each board kept were settled.
    pub closed spec fn orders(&self) -> Seq<Seq<nat>> {
        self.orders@
    }

    /// The time of the next settlement.
    pub closed spec fn clock(&self) -> nat {
        self.clock@
    }

    /// How many boards, at the bottom of the history, were kept without
    /// having been propagated: none after `build`, one after `pan`.
    pub closed spec fn loose(&self) -> nat {
        self.loose@
    }

    /// Whether a board that was kept without having been propagated has been
    /// taken up again: from then on a cell may have been fixed to a state
    /// that its settled neighbours forbid.
    pub closed spec fn tainted(&self) -> bool {
        self.tainted@
    }

    /// The record is that of `other`.
    pub open spec fn same_record(&self, other: &Self) -> bool {
        &&& self.order() == other.order()
        &&& self.orders() == other.orders()
        &&& self.clock() == other.clock()
        &&& self.loose() == other.loose()
        &&& self.tainted() == other.tainted()
        &&& self.barred() == other.barred()
        &&& self.barreds() == other.barreds()
        &&& self.picks() == other.picks()
    }

    /// The board is lawful: its settled cells were settled in the order of
    /// their stamps, the cells settled in the root first, and each of the
    /// others to a state that the reducer let it take, given the neighbours
    /// settled before it.
    pub open spec fn lawful(&self) -> bool {
        lawful::<NF, RF, N, S>(
            self.topology(),
            self.constraint(),
            self.root(),
            self.board(),
            self.order(),
        )
    }

    /// Every cell of the board and of the boards kept is one that the state
    /// machine produces: an `Unknown` cell has at least two candidates, a
    /// settled one exactly the state it holds.
    pub open spec fn tidy(&self) -> bool {
        all_well_formed(self.board(), self.snapshots(), N)
    }

    /// The board is at a fixpoint of the propagation.
    pub open spec fn stable(&self) -> bool {
        stable::<NF, RF, N, S>(self.topology(), self.constraint(), self.board())
    }

    /// The record of the search is in order: unless the search is tainted,
    /// the board and every board kept are lawful, and every board kept but
    /// the loose ones waits for nothing but a choice.
    pub open spec fn sound(&self) -> bool {
        well_recorded::<NF, RF, N, S>(
            self.topology(),
            self.constraint(),
            self.root(),
            self.board(),
            self.snapshots(),
            self.order(),
            self.orders(),
            self.clock(),
            self.loose(),
            self.tainted(),
        )
    }

    /// The solver is in order: its functions can be called as it calls them,
    /// every settled cell holds a state, and the board and every kept board
    /// came from the root by settling.
    pub open spec fn inv(&self) -> bool {
        &&& neighbors_ok(self.topology(), S)
        &&& reducer_ok(self.constraint(), N, S)
        &&& weights_ok(self.weighting(), N)
        &&& N <= CAPACITY
        &&& self.board().len() == S
        &&& self.barred().len() == S
        &&& self.barreds().len() == self.snapshots().len()
        &&& self.loose() <= self.snapshots().len()
        &&& valid_board(self.board(), N)
        &&& refines(self.board(), self.root())
        &&& forall|k: int|
            0 <= k < self.snapshots().len() ==> {
                &&& (#[trigger] self.snapshots()[k]).len() == S
                &&& valid_board(self.snapshots()[k], N)
                &&& refines(self.snapshots()[k], self.root())
            }
    }

    /// What every step of the search keeps of the solver as it was
    /// `earlier`: the solver is in order, with the same functions and root;
    /// no board has become loose; a tainted search stays tainted, and one
    /// without loose boards cannot become so; tidy boards stay tidy.
    pub open spec fn carries_on(&self, earlier: &Self) -> bool {
        &&& self.inv()
        &&& self.same_rules(earlier)
        &&& self.loose() <= earlier.loose()
        &&& earlier.tainted() ==> self.tainted()
        &&& earlier.loose() == 0 ==> self.tainted() == earlier.tainted()
        &&& earlier.tidy() ==> self.tidy()
    }

    /// The functions and the root are those of `other`.
    pub open spec fn same_rules(&self, other: &Self) -> bool {
        &&& self.topology() == other.topology()
        &&& self.constraint() == other.constraint()
        &&& self.weighting() == other.weighting()
        &&& self.root() == other.root()
    }

    /// `assignment` solves the problem that the solver's functions pose.
    pub open spec fn solves(&self, assignment: Seq<usize>) -> bool {
        solves::<NF, RF, N, S>(self.topology(), self.constraint(), assignment)
    }

    /// Every solution that fills `before` fills `after`.
    pub open spec fn keeps(&self, before: Seq<CellView>, after: Seq<CellView>) -> bool {
        keeps::<NF, RF, N, S>(self.topology(), self.constraint(), before, after)
    }

    /// No solution fills what of the board is still open.
    pub open spec fn dead(&self) -> bool {
        hopeless::<NF, RF, N, S>(self.topology(), self.constraint(), self.open_board())
    }

    /// No solution fills the root: the problem cannot be solved.
    pub open spec fn unsolvable(&self) -> bool {
        hopeless::<NF, RF, N, S>(self.topology(), self.constraint(), self.root())
    }

    /// The search has not lost a solution: every solution that fills the
    /// root fills what is open of the board or of one of the boards kept
    /// above the loose ones. Once the search is tainted: no solution fills
    /// the root.
    pub open spec fn covers(&self) -> bool {
        if self.tainted() {
            self.unsolvable()
        } else {
            covering::<NF, RF, N, S>(
                self.topology(),
                self.constraint(),
                self.root(),
                self.open_board(),
                self.open_snapshots().skip(self.loose() as int),
            )
        }
    }

    /// A search that has lost no solution has lost none after a change of
    /// the board that keeps the solutions.
    pub proof fn lemma_covers_step(&self, earlier: &Self)
        requires
            earlier.covers(),
            self.same_rules(earlier),
            self.snapshots() == earlier.snapshots(),
            self.barred() == earlier.barred(),
            self.barreds() == earlier.barreds(),
            self.loose() == earlier.loose(),
            self.tainted() == earlier.tainted(),
            earlier.keeps(earlier.board(), self.board()),
            refines(self.board(), earlier.board()),
        ensures
            self.covers(),
    {
        if !self.tainted() {
            lemma_keeps_open::<NF, RF, N, S>(
                self.topology(),
                self.constraint(),
                earlier.board(),
                self.board(),
                self.barred(),
            );
            assert(self.open_snapshots() =~= earlier.open_snapshots());
            lemma_covering_step::<NF, RF, N, S>(
                self.topology(),
                self.constraint(),
                self.root(),
                earlier.open_board(),
                self.open_snapshots().skip(self.loose() as int),
                self.open_board(),
            );
        }
    }

    /// A bound on the boards that the search can still visit.
    pub open spec fn budget(&self) -> nat {
        search_bound(self.open_board()) + stack_bound(self.open_snapshots())
    }

    /// The board as it stands.
    pub fn state(&self) -> (r: &SolverState<N, S>)
        ensures
            r@ == self.cells(),
    {
        &self.state
    }

    /// The number of boards kept to go back to.
    pub fn depth(&self) -> (r: usize)
        ensures
            r == self.snapshots().len(),
    {
        self.history.len()
    }

    /// The cells that are `Reduced` and not yet `Collapsed`, smallest index
    /// first.
    pub fn reduced(&self) -> (r: Vec<usize>)
        ensures
            lists(r@, cells_in(self.board(), Stage::Pending)),
            forall|k: int| 0 <= k < r@.len() ==> r@[k] < S,
    {
        list_cells(&self.state, Stage::Pending)
    }

    /// Goes back to the board kept last, with the states barred on it, and
    /// returns its cells that are `Reduced` and not yet `Collapsed`. Returns
    /// nothing, and changes nothing, when no board is kept.
    pub fn backtrack(&mut self) -> (r: Option<Vec<usize>>)
        requires
            old(self).inv(),
        ensures
            final(self).carries_on(old(self)),
            final(self).generator() == old(self).generator(),
            final(self).picks() == old(self).picks(),
            match r {
                Some(list) => {
                    &&& old(self).snapshots().len() > 0
                    &&& final(self).board() == old(self).snapshots().last()
                    &&& final(self).snapshots() == old(self).snapshots().drop_last()
                    &&& final(self).barred() == old(self).barreds().last()
                    &&& final(self).barreds() == old(self).barreds().drop_last()
                    &&& lists(list@, cells_in(final(self).board(), Stage::Pending))
                    &&& forall|k: int| 0 <= k < list@.len() ==> list@[k] < S
                    &&& final(self).budget() < old(self).budget()
                },
                None => {
                    &&& old(self).snapshots().len() == 0
                    &&& final(self).cells() == old(self).cells()
                    &&& final(self).snapshots() == old(self).snapshots()
                    &&& final(self).same_record(old(self))
                },
            },
            // No solution is lost by leaving a board that none fills.
            old(self).covers() && old(self).dead() ==> final(self).covers(),
            // The board taken up waits for nothing but a choice, unless it was loose.
            old(self).sound() ==> final(self).sound(),
            r is Some && old(self).sound() && !final(self).tainted() ==> rested::<NF, RF, N, S>(
                final(self).topology(),
                final(self).constraint(),
                final(self).board(),
            ),
    {
        match self.history.pop() {
            Some(snapshot) => {
                self.state = snapshot;
                match self.barred_history.pop() {
                    Some(barred) => {
                        self.barred = barred;
                    },
                    None => {},
                }
                let ghost left = self.history@.len();
                let ghost order = self.orders@[left as int];
                let ghost orders = self.orders@.take(left as int);
                let ghost tainted = self.tainted@ || left < self.loose@;
                let ghost loose = if left < self.loose@ {
                    left
                } else {
                    self.loose@
                };
                self.order = Ghost(order);
                self.orders = Ghost(orders);
                self.tainted = Ghost(tainted);
                self.loose = Ghost(loose);
                proof {
                    assert(self.snapshots() =~= old(self).snapshots().drop_last());
                    assert(self.board() == old(self).snapshots().last());
                    assert(self.barreds() =~= old(self).barreds().drop_last());
                    assert(self.barred() == old(self).barreds().last());
                    assert(self.open_board() == old(self).open_snapshots().last());
                    assert(self.open_snapshots() =~= old(self).open_snapshots().drop_last());
                    lemma_search_bound_le(old(self).open_board(), old(self).open_board());
                    let kept = old(self).open_snapshots().skip(old(self).loose() as int);
                    if old(self).covers() && old(self).dead() && !old(self).tainted() {
                        if left < old(self).loose() {
                            assert(kept =~= Seq::<Seq<CellView>>::empty());
                            assert forall|a: Seq<usize>|
                                #![trigger fits(a, self.root())]
                                self.solves(a) implies !fits(a, self.root()) by {
                                if fits(a, self.root()) {
                                    assert(!fits(a, old(self).open_board()));
                                }
                            }
                        } else {
                            lemma_covering_pop::<NF, RF, N, S>(
                                self.topology(),
                                self.constraint(),
                                self.root(),
                                old(self).open_board(),
                                kept,
                            );
                            assert(kept.last() == old(self).open_snapshots().last());
                            assert(kept.drop_last() =~= self.open_snapshots().skip(
                                self.loose() as int,
                            ));
                        }
                    }
                    if old(self).tidy() {
                        assert(old(self).snapshots()[left as int] == self.board());
                        assert forall|k: int| 0 <= k < self.snapshots().len() implies well_formed(
                            #[trigger] self.snapshots()[k],
                            N,
                        ) by {
                            assert(self.snapshots()[k] == old(self).snapshots()[k]);
                        }
                    }
                    if old(self).sound() && !self.tainted() {
                        assert(old(self).snapshots()[left as int] == self.board());
                        assert forall|k: int| 0 <= k < self.snapshots().len() implies kept_well::<
                            NF,
                            RF,
                            N,
                            S,
                        >(
                            self.topology(),
                            self.constraint(),
                            self.root(),
                            #[trigger] self.snapshots()[k],
                            self.orders()[k],
                            self.clock(),
                            k >= self.loose(),
                        ) by {
                            assert(self.snapshots()[k] == old(self).snapshots()[k]);
                        }
                    }
                }
                Some(list_cells(&self.state, Stage::Pending))
            },
            None => {
                proof {
                    assert(self.snapshots() =~= old(self).snapshots());
                    assert(self.barreds() =~= old(self).barreds());
                }
                None
            },
        }
    }

    /// Fixes cell `i` to `value`, a candidate that is not barred. The board
    /// as it was is kept to go back to, with `value` barred for the cell, so
    /// that it is not tried from there again.
    pub fn commit(&mut self, i: usize, value: usize)
        requires
            old(self).inv(),
            i < S,
            old(self).board()[i as int] is Unknown,
            old(self).open_board()[i as int].domain().contains(value as int),
        ensures
            final(self).carries_on(old(self)),
            final(self).generator() == old(self).generator(),
            final(self).loose() == old(self).loose(),
            final(self).tainted() == old(self).tainted(),
            fixes(
                old(self).board(),
                old(self).snapshots(),
                i as int,
                value,
                final(self).board(),
                final(self).snapshots(),
            ),
            bars(
                old(self).barred(),
                old(self).barreds(),
                i as int,
                value,
                final(self).barred(),
                final(self).barreds(),
            ),
            final(self).picks() == old(self).picks().push((old(self).board(), i)),
            final(self).budget() < old(self).budget(),
            old(self).covers() ==> final(self).covers(),
            old(self).sound() && (old(self).tainted() || old(self).stable())
                ==> final(self).sound(),
    {
        let cell = self.state[i];
        proof {
            cell.lemma_view_within();
            cell.bits().lemma_bounded();
        }
        let chosen = Cell::<N>::reduced(value);
        let ghost before = self.board();
        let ghost after = before.update(i as int, chosen@);
        let ghost barred = self.barred();
        let ghost barred_more = barred.update(i as int, barred[i as int].insert(value as int));
        let ghost open_before = self.open_board();
        let ghost open_after = without(after, barred);
        let ghost open_kept = without(before, barred_more);
        let ghost well = old(self).sound() && !old(self).tainted() && old(self).stable();
        let ghost stamp = self.clock@;
        let ghost stamps = self.order@;
        let ghost picks = self.picks@.push((before, i));

        let snapshot = self.state;
        let mut tried = self.barred;
        let mut set = tried[i];
        set.insert(value);
        tried[i] = set;
        self.history.push(snapshot);
        self.barred_history.push(tried);
        self.state[i] = chosen;

        let ghost orders = self.orders@.push(stamps);
        let ghost order = stamps.update(i as int, stamp);
        let ghost clock = stamp + 1;
        self.orders = Ghost(orders);
        self.order = Ghost(order);
        self.clock = Ghost(clock);
        self.picks = Ghost(picks);
        proof {
            assert(before[i as int] == cell@);
            assert(self.board() =~= after);
            assert(self.snapshots() =~= old(self).snapshots().push(before));
            assert(sets_of(tried) =~= barred_more);
            assert(self.barreds() =~= old(self).barreds().push(barred_more));
            assert(self.barred() == barred);
            assert(self.open_board() == open_after);
            assert(self.open_snapshots() =~= old(self).open_snapshots().push(open_kept));
            // The solver stays in order.
            cell@.lemma_within_finite(N);
            assert(refines(after, before));
            assert(valid_board(after, N));
            lemma_refines_trans(after, before, self.root());
            // Less is left of the search, here and on the board kept.
            let open_cell = open_before[i as int].domain();
            lemma_len_subset(open_cell, cell@.domain());
            assert(open_cell.len() > 0);
            assert(open_kept[i as int].domain() =~= open_cell.remove(value as int));
            assert forall|j: int| 0 <= j < open_before.len() implies crate::board::cell_load(
                #[trigger] open_after[j],
                false,
            ) <= crate::board::cell_load(open_before[j], false) by {}
            assert forall|j: int| 0 <= j < open_before.len() implies crate::board::cell_load(
                #[trigger] open_kept[j],
                false,
            ) <= crate::board::cell_load(open_before[j], false) by {}
            lemma_load_lt(open_after, open_before, false, i as int);
            lemma_load_lt(open_kept, open_before, false, i as int);
            lemma_search_bound_split(open_after, open_kept, open_before);
            lemma_stack_bound_push(old(self).open_snapshots(), open_kept);
            // No solution is lost: it takes the state or it does not.
            if old(self).covers() && !self.tainted() {
                assert forall|a: Seq<usize>|
                    #![trigger fits(a, open_before)]
                    fits(a, open_before) implies fits(a, open_after) || fits(a, open_kept) by {
                    assert(open_before[i as int].admits(a[i as int]));
                    if a[i as int] != value {
                        assert forall|j: int| 0 <= j < open_kept.len() implies (
                        #[trigger] open_kept[j]).admits(a[j]) by {
                            assert(open_before[j].admits(a[j]));
                        }
                    } else {
                        assert forall|j: int| 0 <= j < open_after.len() implies (
                        #[trigger] open_after[j]).admits(a[j]) by {
                            assert(open_before[j].admits(a[j]));
                        }
                    }
                }
                lemma_covering_push::<NF, RF, N, S>(
                    self.topology(),
                    self.constraint(),
                    self.root(),
                    open_before,
                    old(self).open_snapshots().skip(self.loose() as int),
                    open_after,
                    open_kept,
                );
                assert(old(self).open_snapshots().skip(self.loose() as int).push(open_kept)
                    =~= self.open_snapshots().skip(self.loose() as int));
            }
            if old(self).tidy() {
                assert forall|k: int| 0 <= k < self.snapshots().len() implies well_formed(
                    #[trigger] self.snapshots()[k],
                    N,
                ) by {
                    if k < old(self).snapshots().len() {
                        assert(self.snapshots()[k] == old(self).snapshots()[k]);
                    }
                }
            }
            if well {
                assert(at_rest::<NF, RF, N, S>(self.topology(), self.constraint(), before, i));
                assert(self.root()[i as int].is_settled() ==> before[i as int].is_settled());
                lemma_lawful_settle::<NF, RF, N, S>(
                    self.topology(),
                    self.constraint(),
                    self.root(),
                    before,
                    stamps,
                    stamp,
                    i as int,
                    chosen@,
                );
                assert forall|k: int| 0 <= k < self.snapshots().len() implies kept_well::<
                    NF,
                    RF,
                    N,
                    S,
                >(
                    self.topology(),
                    self.constraint(),
                    self.root(),
                    #[trigger] self.snapshots()[k],
                    self.orders()[k],
                    self.clock(),
                    k >= self.loose(),
                ) by {
                    if k < old(self).snapshots().len() {
                        assert(self.snapshots()[k] == old(self).snapshots()[k]);
                        assert(self.orders()[k] == old(self).orders()[k]);
                        assert(kept_well::<NF, RF, N, S>(
                            self.topology(),
                            self.constraint(),
                            self.root(),
                            old(self).snapshots()[k],
                            old(self).orders()[k],
                            stamp,
                            k >= self.loose(),
                        ));
                    }
                }
            }
        }
    }

    /// The settled cells among `around`, in that order, each with its state.
    fn settled_neighbors(&self, around: &Vec<usize>) -> (r: Vec<(usize, usize)>)
        requires
            self.inv(),
            forall|k: int| 0 <= k < around@.len() ==> around@[k] < S,
        ensures
            r@ == settled_among(self.board(), around@),
            forall|k: int| 0 <= k < r@.len() ==> (#[trigger] r@[k]).0 < S && r@[k].1 < N,
    {
        let mut r: Vec<(usize, usize)> = Vec::new();
        let mut k: usize = 0;
        while k < around.len()
            invariant
                k <= around.len(),
                self.inv(),
                forall|j: int| 0 <= j < around@.len() ==> around@[j] < S,
                r@ == settled_among(self.board(), around@.take(k as int)),
                forall|j: int| 0 <= j < r@.len() ==> (#[trigger] r@[j]).0 < S && r@[j].1 < N,
            decreases around.len() - k,
        {
            let j: usize = around[k];
            let cell = self.state[j];
            proof {
                assert(around@.take(k + 1).drop_last() =~= around@.take(k as int));
                assert(self.board()[j as int] == cell@);
                if cell@.is_settled() {
                    lemma_valid_state(self.board(), N, j as int);
                }
            }
            match cell.value() {
                Some(v) => {
                    r.push((j, v));
                },
                None => {},
            }
            k += 1;
        }
        proof {
            assert(around@.take(around@.len() as int) =~= around@);
        }
        r
    }

    /// Cell `i` of `board` has a list of neighbours none of which is settled.
    pub open spec fn isolated(&self, board: Seq<CellView>, i: usize) -> bool {
        exists|around: Vec<usize>| #[trigger]
            call_ensures(self.topology(), (i,), around) && settled_among(board, around@).len() == 0
    }

    /// Asked about cell `i` of `board` and its settled neighbours, of which
    /// there is at least one, the reducer can answer `forbidden`.
    pub open spec fn answers(&self, board: Seq<CellView>, i: usize, forbidden: Set<int>) -> bool {
        exists|around: Vec<usize>, settled: Vec<(usize, usize)>, answer: CandidateSet|
            #![trigger call_ensures(self.topology(), (i,), around), call_ensures(self.constraint(), (settled, i), answer)]
            {
                &&& call_ensures(self.topology(), (i,), around)
                &&& settled@ == settled_among(board, around@)
                &&& settled@.len() > 0
                &&& call_ensures(self.constraint(), (settled, i), answer)
                &&& counted(answer, N) == forbidden
            }
    }

    /// One visit of the propagation can make `outcome` of cell `i` of
    /// `board`, where no outcome stands for a contradiction. A settled cell
    /// stays, and so does a cell without settled neighbours or with nothing
    /// forbidden; otherwise the forbidden states leave the cell.
    pub open spec fn revises(&self, board: Seq<CellView>, i: usize, outcome: Option<CellView>) -> bool {
        if board[i as int] is Unknown {
            ||| self.isolated(board, i) && outcome == Some(board[i as int])
            ||| exists|forbidden: Set<int>| #[trigger]
                self.answers(board, i, forbidden) && outcome == (if forbidden
                    == Set::<int>::empty() {
                    Some(board[i as int])
                } else {
                    board[i as int].reduce(forbidden)
                })
        } else {
            outcome == Some(board[i as int])
        }
    }

    /// Visits cell `i`: if it is `Unknown` and has settled neighbours, the
    /// states that the reducer forbids leave it. Returns false, and changes
    /// nothing, when that would leave the cell without a candidate.
    pub fn revise(&mut self, i: usize) -> (ok: bool)
        requires
            old(self).inv(),
            i < S,
        ensures
            final(self).carries_on(old(self)),
            final(self).generator() == old(self).generator(),
            final(self).snapshots() == old(self).snapshots(),
            final(self).loose() == old(self).loose(),
            final(self).tainted() == old(self).tainted(),
            final(self).orders() == old(self).orders(),
            final(self).barred() == old(self).barred(),
            final(self).barreds() == old(self).barreds(),
            final(self).picks() == old(self).picks(),
            // What becomes of the cell; no other cell changes.
            old(self).revises(
                old(self).board(),
                i,
                if ok {
                    Some(final(self).board()[i as int])
                } else {
                    None
                },
            ),
            forall|j: int| 0 <= j < S && j != i ==> final(self).cells()[j] == old(self).cells()[j],
            !ok || old(self).board()[i as int].is_settled() ==> final(self).cells() == old(self).cells(),
            refines(final(self).board(), old(self).board()),
            ok && final(self).board()[i as int] is Unknown ==> at_rest::<NF, RF, N, S>(
                final(self).topology(),
                final(self).constraint(),
                final(self).board(),
                i,
            ),
            // No solution is lost; none fills a board with a contradiction.
            old(self).keeps(old(self).board(), final(self).board()),
            !ok ==> final(self).dead(),
            old(self).sound() ==> final(self).sound(),
    {
        let cell = self.state[i];
        let ghost board = self.board();
        proof {
            assert(board[i as int] == cell@);
            assert(self.snapshots() =~= old(self).snapshots());
            assert(self.barreds() =~= old(self).barreds());
            assert(refines(board, board));
        }
        if !cell.is_unknown() {
            return true;
        }
        let around = (self.neighbors)(i);
        let settled = self.settled_neighbors(&around);
        if settled.len() == 0 {
            proof {
                assert(self.isolated(board, i));
                assert forall|state: usize|
                    board[i as int].domain().contains(state as int) implies #[trigger] permits::<
                    NF,
                    RF,
                    N,
                    S,
                >(self.topology(), self.constraint(), board, i, state) by {
                    assert(call_ensures(self.topology(), (i,), around) && settled_among(
                        board,
                        around@,
                    ).len() == 0);
                }
            }
            return true;
        }
        let ghost asked = settled;
        let answer = (self.reducer)(settled, i);
        let forbidden = answer.members_below(N);
        proof {
            lemma_listed_len(forbidden@, counted(answer, N));
            assert(call_ensures(self.topology(), (i,), around) && call_ensures(
                self.constraint(),
                (asked, i),
                answer,
            ));
            assert(self.answers(board, i, counted(answer, N)));
            cell.lemma_view_within();
            assert(cell@.domain().difference(answer@) =~= cell@.domain().difference(
                counted(answer, N),
            ));
        }
        proof {
            // Whatever the answer does not forbid, the reducer lets the cell take.
            assert forall|state: usize|
                !counted(answer, N).contains(state as int) implies #[trigger] permits::<
                NF,
                RF,
                N,
                S,
            >(self.topology(), self.constraint(), board, i, state) by {
                assert(call_ensures(self.topology(), (i,), around) && call_ensures(
                    self.constraint(),
                    (asked, i),
                    answer,
                ) && asked@ == settled_among(board, around@));
            }
        }
        if forbidden.len() == 0 {
            proof {
                assert(counted(answer, N) =~= Set::<int>::empty());
            }
            return true;
        }
        proof {
            assert(counted(answer, N).contains(forbidden@[0] as int));
            assert forall|a: Seq<usize>| #[trigger] fits(a, board) && self.solves(a) implies (
            cell@.reduce(answer@) matches Some(n) && n.admits(a[i as int])) by {
                lemma_fit_settled_among(a, board, around@);
                assert(asked@ == assigned_among(a, cells_in(board, Stage::Settled), around@));
                assert(!counted(answer, N).contains(a[i as int] as int));
                assert(board[i as int].admits(a[i as int]));
                cell@.lemma_reduce_admits(answer@, N, a[i as int]);
            }
        }
        match cell.reduce(answer) {
            Some(next) => {
                self.state[i] = next;
                let ghost stamp = self.clock@;
                let ghost stamps = self.order@;
                let ghost order = if next@.is_settled() {
                    stamps.update(i as int, stamp)
                } else {
                    stamps
                };
                let ghost clock = if next@.is_settled() {
                    stamp + 1
                } else {
                    stamp
                };
                self.order = Ghost(order);
                self.clock = Ghost(clock);
                proof {
                    let after = board.update(i as int, next@);
                    assert(self.board() =~= after);
                    cell@.lemma_reduce_shrinks(answer@, N);
                    if next@.is_settled() {
                        assert(next@.domain().contains(next@.value().unwrap() as int));
                        assert(!counted(answer, N).contains(next@.value().unwrap() as int));
                    } else {
                        assert(same_states(board, after));
                        assert forall|state: usize|
                            after[i as int].domain().contains(
                                state as int,
                            ) implies #[trigger] permits::<NF, RF, N, S>(
                            self.topology(),
                            self.constraint(),
                            after,
                            i,
                            state,
                        ) by {
                            assert(!counted(answer, N).contains(state as int));
                            lemma_permits_same::<NF, RF, N, S>(
                                self.topology(),
                                self.constraint(),
                                board,
                                after,
                                i,
                                state,
                            );
                        }
                    }
                    if old(self).sound() && !self.tainted() {
                        if next@.is_settled() {
                            assert(self.root()[i as int].is_settled() ==> board[i as int].is_settled(
                            ));
                            lemma_lawful_settle::<NF, RF, N, S>(
                                self.topology(),
                                self.constraint(),
                                self.root(),
                                board,
                                stamps,
                                stamp,
                                i as int,
                                next@,
                            );
                        } else {
                            lemma_lawful_keep::<NF, RF, N, S>(
                                self.topology(),
                                self.constraint(),
                                self.root(),
                                board,
                                stamps,
                                after,
                            );
                        }
                        assert forall|k: int| 0 <= k < self.snapshots().len() implies kept_well::<
                            NF,
                            RF,
                            N,
                            S,
                        >(
                            self.topology(),
                            self.constraint(),
                            self.root(),
                            #[trigger] self.snapshots()[k],
                            self.orders()[k],
                            self.clock(),
                            k >= self.loose(),
                        ) by {
                            assert(self.snapshots()[k] == old(self).snapshots()[k]);
                            assert(kept_well::<NF, RF, N, S>(
                                self.topology(),
                                self.constraint(),
                                self.root(),
                                old(self).snapshots()[k],
                                old(self).orders()[k],
                                stamp,
                                k >= self.loose(),
                            ));
                        }
                    }
                    assert forall|a: Seq<usize>|
                        #![trigger fits(a, board)]
                        self.solves(a) && fits(a, board) implies fits(a, after) by {
                        assert forall|j: int| 0 <= j < after.len() implies (
                        #[trigger] after[j]).admits(a[j]) by {
                            assert(board[j].admits(a[j]));
                        }
                    }
                    assert(self.snapshots() =~= old(self).snapshots());
                    assert(self.barreds() =~= old(self).barreds());
                    cell@.lemma_reduce_shrinks(answer@, N);
                    if next@.value() is Some {
                        assert(next@.domain().contains(next@.value().unwrap() as int));
                    }
                    assert(refines(after, board));
                    assert(valid_board(after, N));
                    lemma_refines_trans(after, board, self.root());
                }
                true
            },
            None => {
                proof {
                    assert(hopeless::<NF, RF, N, S>(self.topology(), self.constraint(), board));
                    lemma_hopeless_open::<NF, RF, N, S>(
                        self.topology(),
                        self.constraint(),
                        board,
                        self.barred(),
                    );
                }
                false
            },
        }
    }

    /// The cells below `end` that were `Unknown` in `before` and are
    /// `Reduced` in `after`.
    pub open spec fn pinned_before(before: Seq<CellView>, after: Seq<CellView>, end: int) -> Set<
        int,
    > {
        Set::new(
            |j: int|
                0 <= j < end && j < before.len() && j < after.len() && before[j] is Unknown
                    && after[j] is Reduced,
        )
    }

    /// Visits every cell once, in rising order. Returns the cells that it
    /// turned from `Unknown` to `Reduced`, or nothing as soon as a cell would
    /// be left without a candidate.
    pub fn sweep(&mut self) -> (r: Option<Vec<usize>>)
        requires
            old(self).inv(),
        ensures
            final(self).carries_on(old(self)),
            final(self).generator() == old(self).generator(),
            final(self).snapshots() == old(self).snapshots(),
            final(self).loose() == old(self).loose(),
            final(self).tainted() == old(self).tainted(),
            final(self).orders() == old(self).orders(),
            final(self).barred() == old(self).barred(),
            final(self).barreds() == old(self).barreds(),
            final(self).picks() == old(self).picks(),
            // Cells only settle: settled cells stay, candidates get fewer.
            refines(final(self).board(), old(self).board()),
            forall|j: int|
                0 <= j < S && old(self).board()[j].is_settled() ==> final(self).cells()[j]
                    == old(self).cells()[j],
            final(self).budget() <= old(self).budget(),
            unknown_total(final(self).board()) <= unknown_total(old(self).board()),
            r matches Some(list) ==> {
                &&& lists(
                    list@,
                    Self::pinned_before(old(self).board(), final(self).board(), S as int),
                )
                &&& forall|k: int| 0 <= k < list@.len() ==> list@[k] < S
                &&& list@.len() > 0 ==> unknown_total(final(self).board()) < unknown_total(
                    old(self).board(),
                )
            },
            // A sweep that settles no cell leaves the board at a fixpoint.
            r matches Some(list) && list@.len() == 0 ==> final(self).stable(),
            // Without `Unknown` cells there is nothing to do.
            cells_in(old(self).board(), Stage::Open) == Set::<int>::empty() ==> r is Some
                && final(self).cells() == old(self).cells(),
            // No solution is lost; none fills a board with a contradiction.
            old(self).keeps(old(self).board(), final(self).board()),
            r is None ==> final(self).dead(),
            old(self).sound() ==> final(self).sound(),
    {
        let ghost start = self.board();
        let ghost start_cells = self.cells();
        let mut reduced: Vec<usize> = Vec::new();
        let mut i: usize = 0;
        let mut ok: bool = true;
        proof {
            assert(Self::pinned_before(start, start, 0) =~= Set::<int>::empty());
            assert(refines(start, start));
        }
        while ok && i < S
            invariant
                i <= S,
                self.inv(),
                self.same_rules(old(self)),
                self.generator() == old(self).generator(),
                self.snapshots() == old(self).snapshots(),
                start == old(self).board(),
                start_cells == old(self).cells(),
                start.len() == S,
                valid_board(start, N),
                refines(self.board(), start),
                forall|j: int|
                    0 <= j < S && start[j].is_settled() ==> self.cells()[j] == start_cells[j],
                forall|j: int| i <= j < S ==> self.cells()[j] == start_cells[j],
                ok ==> lists(reduced@, Self::pinned_before(start, self.board(), i as int)),
                forall|k: int| 0 <= k < reduced@.len() ==> reduced@[k] < S,
                cells_in(start, Stage::Open) == Set::<int>::empty() ==> ok && self.cells()
                    == start_cells,
                self.keeps(start, self.board()),
                !ok ==> self.dead(),
                self.loose() == old(self).loose(),
                self.tainted() == old(self).tainted(),
                self.orders() == old(self).orders(),
                self.barred() == old(self).barred(),
                self.barreds() == old(self).barreds(),
                self.picks() == old(self).picks(),
                old(self).sound() ==> self.sound(),
                old(self).tidy() ==> self.tidy(),
                ok && reduced@.len() == 0 ==> same_states(start, self.board()) && forall|j: int|
                    0 <= j < i && (#[trigger] self.board()[j]) is Unknown ==> at_rest::<
                        NF,
                        RF,
                        N,
                        S,
                    >(self.topology(), self.constraint(), self.board(), j as usize),
            decreases S - i + (if ok { 1nat } else { 0nat }),
        {
            let ghost before = self.board();
            let was_unknown = self.state[i].is_unknown();
            proof {
                assert(before[i as int] == self.cells()[i as int]@);
                assert(start[i as int] == before[i as int]);
                if was_unknown {
                    assert(cells_in(start, Stage::Open).contains(i as int));
                }
            }
            if self.revise(i) {
                proof {
                    lemma_refines_trans(self.board(), before, start);
                    if cells_in(start, Stage::Open) == Set::<int>::empty() {
                        assert(!was_unknown);
                        assert(self.cells() == start_cells);
                    }
                }
                let ghost seen = Self::pinned_before(start, before, i as int);
                proof {
                    assert(Self::pinned_before(start, self.board(), i as int) =~= seen) by {
                        assert forall|j: int| 0 <= j < i implies self.board()[j] == before[j] by {
                            assert(self.board()[j] == self.cells()[j]@);
                        }
                    }
                }
                proof {
                    if reduced@.len() == 0 && !(was_unknown && self.board()[i as int] is Reduced) {
                        let now = self.board();
                        assert(now[i as int] == self.cells()[i as int]@);
                        assert forall|j: int| 0 <= j < now.len() implies (
                        #[trigger] before[j]).value() == now[j].value() by {
                            assert(now[j] == self.cells()[j]@);
                        }
                        assert(same_states(before, now));
                        assert forall|j: int| 0 <= j < now.len() implies (
                        #[trigger] start[j]).value() == now[j].value() by {
                            assert(start[j].value() == before[j].value());
                        }
                        assert forall|j: int|
                            0 <= j < i + 1 && (#[trigger] now[j]) is Unknown implies at_rest::<
                            NF,
                            RF,
                            N,
                            S,
                        >(self.topology(), self.constraint(), now, j as usize) by {
                            if j < i {
                                assert(now[j] == self.cells()[j]@);
                                assert(before[j] is Unknown);
                                lemma_at_rest_same::<NF, RF, N, S>(
                                    self.topology(),
                                    self.constraint(),
                                    before,
                                    now,
                                    j as usize,
                                );
                            }
                        }
                    }
                }
                if was_unknown && self.state[i].is_reduced() {
                    proof {
                        lemma_lists_push(reduced@, seen, i);
                        assert(Self::pinned_before(start, self.board(), i + 1) =~= seen.insert(
                            i as int,
                        ));
                    }
                    reduced.push(i);
                } else {
                    proof {
                        assert(Self::pinned_before(start, self.board(), i + 1) =~= seen);
                    }
                }
                i += 1;
            } else {
                ok = false;
            }
        }
        proof {
            lemma_open_load(self.board(), start, self.barred(), N, false);
            lemma_refined_load(self.board(), start, N, true);
            lemma_search_bound_le(self.open_board(), old(self).open_board());
            assert(self.open_snapshots() =~= old(self).open_snapshots());
            if ok && reduced@.len() > 0 {
                let j = reduced@[0] as int;
                assert(Self::pinned_before(start, self.board(), S as int).contains(j));
                assert forall|m: int| 0 <= m < start.len() implies crate::board::cell_load(
                    #[trigger] self.board()[m],
                    true,
                ) <= crate::board::cell_load(start[m], true) by {
                    crate::board::lemma_refined_cell_load(self.board()[m], start[m], N, true);
                }
                lemma_load_lt(self.board(), start, true, j);
            }
        }
        if ok {
            Some(reduced)
        } else {
            None
        }
    }

    /// Collapses the cells named in `to_collapse`.
    pub fn settle(&mut self, to_collapse: &Vec<usize>)
        requires
            old(self).inv(),
            forall|k: int| 0 <= k < to_collapse@.len() ==> to_collapse@[k] < S,
        ensures
            final(self).carries_on(old(self)),
            final(self).generator() == old(self).generator(),
            final(self).snapshots() == old(self).snapshots(),
            final(self).same_record(old(self)),
            forall|j: int|
                0 <= j < S ==> #[trigger] final(self).cells()[j] == (if to_collapse@.contains(
                    j as usize,
                ) {
                    old(self).cells()[j].collapse()
                } else {
                    old(self).cells()[j]
                }),
            // Which changes nothing but the stage of the cells.
            same_states(old(self).board(), final(self).board()),
            refines(final(self).board(), old(self).board()),
            final(self).budget() == old(self).budget(),
            unknown_total(final(self).board()) == unknown_total(old(self).board()),
            old(self).keeps(old(self).board(), final(self).board()),
            old(self).sound() ==> final(self).sound(),
            old(self).stable() ==> final(self).stable(),
    {
        let ghost start = self.board();
        let ghost start_cells = self.cells();
        let mut k: usize = 0;
        proof {
            assert(refines(start, start));
        }
        while k < to_collapse.len()
            invariant
                k <= to_collapse.len(),
                forall|m: int| 0 <= m < to_collapse@.len() ==> to_collapse@[m] < S,
                self.inv(),
                self.same_rules(old(self)),
                self.generator() == old(self).generator(),
                self.snapshots() == old(self).snapshots(),
                start == old(self).board(),
                start_cells == old(self).cells(),
                start.len() == S,
                refines(self.board(), start),
                self.same_record(old(self)),
                forall|j: int|
                    0 <= j < S ==> #[trigger] self.cells()[j] == (if to_collapse@.take(
                        k as int,
                    ).contains(j as usize) {
                        start_cells[j].collapse()
                    } else {
                        start_cells[j]
                    }),
            decreases to_collapse.len() - k,
        {
            let i: usize = to_collapse[k];
            let cell = self.state[i];
            let ghost before = self.board();
            let ghost before_cells = self.cells();
            self.state[i] = cell.collapse();
            proof {
                let after = before.update(i as int, cell@.collapse());
                assert(self.board() =~= after);
                assert(self.snapshots() =~= old(self).snapshots());
                assert(self.barreds() =~= old(self).barreds());
                assert(before[i as int] == cell@);
                cell@.lemma_collapse(N);
                assert(refines(after, before));
                assert(valid_board(after, N));
                lemma_refines_trans(after, before, self.root());
                lemma_refines_trans(after, before, start);
                let shorter = to_collapse@.take(k as int);
                let longer = to_collapse@.take(k + 1);
                assert(longer =~= shorter.push(i));
                assert forall|j: int| 0 <= j < S implies #[trigger] self.cells()[j] == (
                if longer.contains(j as usize) {
                    start_cells[j].collapse()
                } else {
                    start_cells[j]
                }) by {
                    assert(before_cells[j] == (if shorter.contains(j as usize) {
                        start_cells[j].collapse()
                    } else {
                        start_cells[j]
                    }));
                    if j == i {
                        assert(longer[k as int] == i);
                    } else if shorter.contains(j as usize) {
                        let m = choose|m: int| 0 <= m < shorter.len() && shorter[m] == j as usize;
                        assert(longer[m] == j as usize);
                    } else if longer.contains(j as usize) {
                        let m = choose|m: int| 0 <= m < longer.len() && longer[m] == j as usize;
                        assert(m < k);
                        assert(shorter[m] == j as usize);
                    }
                }
            }
            k += 1;
        }
        proof {
            assert(to_collapse@.take(to_collapse@.len() as int) =~= to_collapse@);
            let last = self.board();
            assert forall|j: int| 0 <= j < S implies crate::board::cell_load(
                #[trigger] last[j],
                false,
            ) == crate::board::cell_load(start[j], false) && crate::board::cell_load(last[j], true)
                == crate::board::cell_load(start[j], true) by {
                assert(last[j] == self.cells()[j]@);
                assert(start[j] == start_cells[j]@);
            }
            crate::board::lemma_load_le(last, start, true);
            crate::board::lemma_load_le(start, last, true);
            assert forall|j: int| 0 <= j < S implies (#[trigger] start[j]).refines(last[j]) by {
                assert(last[j] == self.cells()[j]@);
                assert(start[j] == start_cells[j]@);
                start[j].lemma_collapse(N);
            }
            lemma_open_load(last, start, self.barred(), N, false);
            lemma_open_load(start, last, self.barred(), N, false);
            lemma_search_bound_le(self.open_board(), old(self).open_board());
            lemma_search_bound_le(old(self).open_board(), self.open_board());
            assert(self.open_snapshots() =~= old(self).open_snapshots());
            assert forall|j: int| 0 <= j < S implies (#[trigger] start[j]).value() == last[j].value()
                && last[j].domain() == start[j].domain() && last[j].is_settled()
                == start[j].is_settled() by {
                assert(last[j] == self.cells()[j]@);
                assert(start[j] == start_cells[j]@);
                start[j].lemma_collapse(N);
            }
            assert(same_states(start, last));
            if old(self).tidy() {
                assert forall|j: int| 0 <= j < last.len() implies (#[trigger] last[j]).wf(N) by {
                    assert(last[j] == self.cells()[j]@);
                    assert(start[j] == start_cells[j]@);
                    assert(start[j].wf(N));
                    start[j].lemma_collapse(N);
                }
            }
            if old(self).stable() {
                lemma_stable_same::<NF, RF, N, S>(self.topology(), self.constraint(), start, last);
            }
            if old(self).sound() && !self.tainted() {
                lemma_lawful_keep::<NF, RF, N, S>(
                    self.topology(),
                    self.constraint(),
                    self.root(),
                    start,
                    self.order(),
                    last,
                );
                assert(timely(last, self.order(), self.clock()));
            }
            assert forall|a: Seq<usize>| #![trigger fits(a, start)] fits(a, start) implies fits(
                a,
                last,
            ) by {
                assert forall|j: int| 0 <= j < last.len() implies (#[trigger] last[j]).admits(
                    a[j],
                ) by {
                    assert(start[j].admits(a[j]));
                    assert(last[j] == self.cells()[j]@);
                    assert(start[j] == start_cells[j]@);
                    start[j].lemma_collapse(N);
                }
            }
        }
    }

    /// Propagates from the cells named in `to_collapse`. Round by round every
    /// cell is visited, the cells of the worklist are collapsed, and the
    /// cells that the round turned `Reduced` make the next worklist, until it
    /// is empty. On a contradiction the solver goes back to the board kept
    /// last and goes on from its `Reduced` cells; it fails when no board is
    /// kept then. No random number is drawn.
    pub fn propagate(&mut self, to_collapse: Vec<usize>) -> (r: Result<(), Unsatisfiable>)
        requires
            old(self).inv(),
            forall|k: int| 0 <= k < to_collapse@.len() ==> to_collapse@[k] < S,
        ensures
            final(self).carries_on(old(self)),
            final(self).generator() == old(self).generator(),
            final(self).picks() == old(self).picks(),
            final(self).budget() <= old(self).budget(),
            // The board came from the board at the start by settling, or,
            // after going back, from a board that was kept then.
            resumes(
                final(self).board(),
                final(self).snapshots(),
                old(self).board(),
                old(self).snapshots(),
            ),
            // It ends with no cell left to propagate from, where the worklist
            // held every `Reduced` cell, and at a fixpoint.
            r is Ok && (forall|j: int|
                0 <= j < S && (#[trigger] old(self).board()[j]) is Reduced ==> to_collapse@.contains(
                    j as usize,
                )) ==> cells_in(final(self).board(), Stage::Pending) == Set::<int>::empty(),
            old(self).sound() ==> final(self).sound(),
            r is Ok && old(self).sound() && !final(self).tainted() && (to_collapse@.len() == 0
                ==> old(self).stable()) ==> final(self).stable(),
            // It fails only with no board kept, and then, if no solution was
            // lost before, none fills the root.
            r is Err ==> final(self).snapshots().len() == 0,
            old(self).covers() ==> final(self).covers(),
            r is Err && old(self).covers() ==> final(self).unsolvable(),
            // With an empty worklist nothing happens; without `Unknown` cells
            // the cells of the worklist are collapsed and that is all.
            to_collapse@.len() == 0 ==> r is Ok && final(self).cells() == old(self).cells()
                && final(self).snapshots() == old(self).snapshots(),
            cells_in(old(self).board(), Stage::Open) == Set::<int>::empty() ==> {
                &&& r is Ok
                &&& final(self).snapshots() == old(self).snapshots()
                &&& forall|j: int|
                    0 <= j < S ==> #[trigger] final(self).cells()[j] == (if to_collapse@.contains(
                        j as usize,
                    ) {
                        old(self).cells()[j].collapse()
                    } else {
                        old(self).cells()[j]
                    })
            },
    {
        let ghost given = to_collapse@;
        let ghost mut untouched = true;
        let mut worklist = to_collapse;
        proof {
            assert(refines(self.board(), self.board()));
        }
        loop
            invariant
                self.inv(),
                self.same_rules(old(self)),
                self.generator() == old(self).generator(),
                self.picks() == old(self).picks(),
                self.budget() <= old(self).budget(),
                resumes(self.board(), self.snapshots(), old(self).board(), old(self).snapshots()),
                forall|k: int| 0 <= k < worklist@.len() ==> worklist@[k] < S,
                (forall|j: int|
                    0 <= j < S && (#[trigger] old(self).board()[j]) is Reduced ==> given.contains(
                        j as usize,
                    )) ==> (forall|j: int|
                    0 <= j < S && (#[trigger] self.board()[j]) is Reduced ==> worklist@.contains(
                        j as usize,
                    )),
                untouched ==> self.cells() == old(self).cells() && self.snapshots() == old(
                    self,
                ).snapshots() && worklist@ == given,
                !untouched ==> given.len() > 0 && cells_in(old(self).board(), Stage::Open)
                    != Set::<int>::empty(),
                given == to_collapse@,
                old(self).covers() ==> self.covers(),
                self.loose() <= old(self).loose(),
                old(self).tainted() ==> self.tainted(),
                old(self).loose() == 0 ==> self.tainted() == old(self).tainted(),
                old(self).sound() ==> self.sound(),
                old(self).tidy() ==> self.tidy(),
                old(self).sound() && !self.tainted() && (given.len() == 0 ==> old(self).stable())
                    && worklist@.len() == 0 ==> self.stable(),
            decreases self.budget(), unknown_total(self.board()),
        {
            if worklist.len() == 0 {
                proof {
                    assert(cells_in(self.board(), Stage::Pending) =~= Set::<int>::empty()
                        || !(forall|j: int|
                        0 <= j < S && (#[trigger] old(self).board()[j]) is Reduced
                            ==> given.contains(j as usize)));
                }
                return Ok(());
            }
            let ghost entry = self.board();
            let ghost entry_snapshots = self.snapshots();
            let ghost at_entry = *self;
            match self.sweep() {
                Some(reduced) => {
                    let ghost swept = self.board();
                    let ghost swept_cells = self.cells();
                    let ghost at_swept = *self;
                    self.settle(&worklist);
                    proof {
                        if old(self).covers() {
                            at_swept.lemma_covers_step(&at_entry);
                            self.lemma_covers_step(&at_swept);
                        }
                        lemma_refines_trans(self.board(), swept, entry);
                        if entry_snapshots == old(self).snapshots() && refines(
                            entry,
                            old(self).board(),
                        ) {
                            lemma_refines_trans(self.board(), entry, old(self).board());
                        } else {
                            lemma_refines_trans(
                                self.board(),
                                entry,
                                old(self).snapshots()[entry_snapshots.len() as int],
                            );
                        }
                        let pinned = Self::pinned_before(entry, swept, S as int);
                        assert forall|j: int|
                            0 <= j < S && (#[trigger] self.board()[j]) is Reduced && (forall|m: int|
                                0 <= m < S && (#[trigger] entry[m]) is Reduced
                                    ==> worklist@.contains(m as usize)) implies reduced@.contains(
                            j as usize,
                        ) by {
                            assert(self.board()[j] == self.cells()[j]@);
                            assert(swept[j] == swept_cells[j]@);
                            if worklist@.contains(j as usize) {
                                swept[j].lemma_collapse(N);
                            } else {
                                assert(swept[j] is Reduced);
                                if entry[j] is Unknown {
                                    assert(pinned.contains(j));
                                    let k = choose|k: int|
                                        0 <= k < reduced@.len() && #[trigger] reduced@[k] == j;
                                    assert(reduced@[k] == j as usize);
                                }
                            }
                        }
                        if cells_in(old(self).board(), Stage::Open) == Set::<int>::empty()
                            && untouched {
                            lemma_listed_len(reduced@, pinned);
                            if reduced@.len() > 0 {
                                assert(pinned.contains(reduced@[0] as int));
                                assert(cells_in(entry, Stage::Open).contains(reduced@[0] as int));
                            }
                        }
                    }
                    if reduced.len() == 0 {
                        proof {
                            assert(cells_in(self.board(), Stage::Pending) =~= Set::<int>::empty()
                                || !(forall|j: int|
                                0 <= j < S && (#[trigger] old(self).board()[j]) is Reduced
                                    ==> given.contains(j as usize)));
                        }
                        return Ok(());
                    }
                    worklist = reduced;
                    proof {
                        untouched = false;
                    }
                },
                None => {
                    proof {
                        if old(self).covers() {
                            self.lemma_covers_step(&at_entry);
                        }
                    }
                    match self.backtrack() {
                        Some(list) => {
                            proof {
                                let n = entry_snapshots.len() as int;
                                assert(refines(self.board(), self.board()));
                                assert(entry_snapshots.drop_last() =~= old(self).snapshots().take(
                                    n - 1,
                                ));
                                assert(self.board() == old(self).snapshots()[n - 1]);
                                assert forall|j: int|
                                    0 <= j < S && (#[trigger] self.board()[j])
                                        is Reduced implies list@.contains(j as usize) by {
                                    assert(cells_in(self.board(), Stage::Pending).contains(j));
                                    let k = choose|k: int|
                                        0 <= k < list@.len() && #[trigger] list@[k] == j;
                                    assert(list@[k] == j as usize);
                                }
                                if list@.len() == 0 {
                                    lemma_listed_len(
                                        list@,
                                        cells_in(self.board(), Stage::Pending),
                                    );
                                    assert(cells_in(self.board(), Stage::Pending)
                                        =~= Set::<int>::empty());
                                }
                            }
                            worklist = list;
                            proof {
                                untouched = false;
                            }
                        },
                        None => {
                            return Err(Unsatisfiable);
                        },
                    }
                },
            }
        }
    }

    /// Fixes cell `i` to a state drawn at random among its candidates that
    /// are not barred, keeps the board as it was to go back to, and returns
    /// `i` as the worklist. Where no state can be drawn the solver goes back
    /// to the board kept last and returns its `Reduced` cells, or fails when
    /// no board is kept. A cell that is not `Unknown` is left as it is.
    pub fn observe(&mut self, i: usize) -> (r: Result<Vec<usize>, Unsatisfiable>)
        requires
            old(self).inv(),
            i < S,
        ensures
            final(self).carries_on(old(self)),
            // A cell that is not `Unknown` is left alone.
            !(old(self).board()[i as int] is Unknown) ==> {
                &&& r matches Ok(list) && list@ == seq![i]
                &&& final(self).cells() == old(self).cells()
                &&& final(self).snapshots() == old(self).snapshots()
                &&& final(self).generator() == old(self).generator()
                &&& final(self).same_record(old(self))
            },
            // An `Unknown` cell is fixed to a candidate of positive weight
            // that is not barred, and the board as it was is kept; or no
            // such candidate has a positive weight for sure, and the solver
            // goes back.
            old(self).board()[i as int] is Unknown ==> {
                ||| exists|v: usize|
                    {
                        &&& #[trigger] fixes(
                            old(self).board(),
                            old(self).snapshots(),
                            i as int,
                            v,
                            final(self).board(),
                            final(self).snapshots(),
                        )
                        &&& bars(
                            old(self).barred(),
                            old(self).barreds(),
                            i as int,
                            v,
                            final(self).barred(),
                            final(self).barreds(),
                        )
                        &&& final(self).picks() == old(self).picks().push((old(self).board(), i))
                        &&& exists|w: usize| w > 0 && call_ensures(old(self).weighting(), (&v,), w)
                        &&& r matches Ok(list) && list@ == seq![i]
                    }
                ||| {
                    &&& forall|s: usize|
                        old(self).open_board()[i as int].domain().contains(s as int)
                            ==> call_ensures(old(self).weighting(), (&s,), 0usize)
                    &&& final(self).picks() == old(self).picks()
                    &&& match r {
                        Ok(list) => {
                            &&& old(self).snapshots().len() > 0
                            &&& final(self).board() == old(self).snapshots().last()
                            &&& final(self).snapshots() == old(self).snapshots().drop_last()
                            &&& final(self).barred() == old(self).barreds().last()
                            &&& final(self).barreds() == old(self).barreds().drop_last()
                            &&& lists(list@, cells_in(final(self).board(), Stage::Pending))
                        },
                        Err(_) => {
                            &&& old(self).snapshots().len() == 0
                            &&& final(self).cells() == old(self).cells()
                            &&& final(self).snapshots() == old(self).snapshots()
                        },
                    }
                }
            },
            // The worklist holds every cell that has become `Reduced`.
            r matches Ok(list) ==> forall|k: int| 0 <= k < list@.len() ==> list@[k] < S,
            r matches Ok(list) ==> (cells_in(old(self).board(), Stage::Pending) == Set::<
                int,
            >::empty() ==> forall|j: int|
                0 <= j < S && (#[trigger] final(self).board()[j]) is Reduced ==> list@.contains(
                    j as usize,
                )),
            r is Ok && old(self).board()[i as int] is Unknown ==> final(self).budget() < old(
                self,
            ).budget(),
            // From a fixpoint the record stays in order.
            old(self).sound() && (old(self).tainted() || old(self).stable())
                ==> final(self).sound(),
            r matches Ok(list) ==> (list@.len() == 0 && old(self).sound() && !final(self).tainted()
                ==> final(self).stable()),
            // It fails only with no board kept; where every state can be
            // drawn no solution is lost, and on failure none fills the root.
            r is Err ==> final(self).snapshots().len() == 0,
            positive(old(self).weighting(), N) && old(self).covers() ==> final(self).covers() && (r
                is Err ==> final(self).unsolvable()),
    {
        let cell = self.state[i];
        proof {
            assert(self.board()[i as int] == cell@);
            assert(self.snapshots() =~= old(self).snapshots());
            assert(self.barreds() =~= old(self).barreds());
        }
        if !cell.is_unknown() {
            let mut list: Vec<usize> = Vec::new();
            list.push(i);
            proof {
                assert(list@ =~= seq![i]);
                assert forall|j: int|
                    0 <= j < S && (#[trigger] self.board()[j]) is Reduced && cells_in(
                        old(self).board(),
                        Stage::Pending,
                    ) == Set::<int>::empty() implies list@.contains(j as usize) by {
                    assert(cells_in(old(self).board(), Stage::Pending).contains(j));
                }
            }
            return Ok(list);
        }
        // What is left of the cell to try.
        let open = Cell::<N>::Unknown(cell.state().difference(self.barred[i]));
        proof {
            cell.lemma_view_within();
            open.lemma_view_within();
            assert(open@.domain() =~= self.open_board()[i as int].domain());
            lemma_weights_fit_subset(
                self.weighting(),
                set_int_range(0, N as int),
                open@.domain(),
            );
        }
        match open.draw(&self.weights, &mut self.rng) {
            Ok(v) => {
                proof {
                    assert(self.snapshots() =~= old(self).snapshots());
                    assert(self.barreds() =~= old(self).barreds());
                }
                self.commit(i, v);
                let mut list: Vec<usize> = Vec::new();
                list.push(i);
                proof {
                    assert(list@ =~= seq![i]);
                    assert(fixes(
                        old(self).board(),
                        old(self).snapshots(),
                        i as int,
                        v,
                        self.board(),
                        self.snapshots(),
                    ));
                    assert forall|j: int|
                        0 <= j < S && (#[trigger] self.board()[j]) is Reduced && cells_in(
                            old(self).board(),
                            Stage::Pending,
                        ) == Set::<int>::empty() implies list@.contains(j as usize) by {
                        if j != i {
                            assert(cells_in(old(self).board(), Stage::Pending).contains(j));
                        } else {
                            assert(list@[0] == i);
                        }
                    }
                }
                Ok(list)
            },
            Err(_) => {
                proof {
                    assert(self.snapshots() =~= old(self).snapshots());
                    assert(self.barreds() =~= old(self).barreds());
                    lemma_search_bound_le(self.open_board(), self.open_board());
                    if positive(self.weighting(), N) {
                        assert forall|a: Seq<usize>|
                            #![trigger fits(a, self.open_board())]
                            self.solves(a) implies !fits(a, self.open_board()) by {
                            if fits(a, self.open_board()) {
                                assert(self.open_board()[i as int].admits(a[i as int]));
                                assert(call_ensures(self.weighting(), (&a[i as int],), 0usize));
                            }
                        }
                    }
                }
                match self.backtrack() {
                    Some(list) => {
                        proof {
                            assert forall|j: int|
                                0 <= j < S && (#[trigger] self.board()[j])
                                    is Reduced implies list@.contains(j as usize) by {
                                assert(cells_in(self.board(), Stage::Pending).contains(j));
                                let k = choose|k: int|
                                    0 <= k < list@.len() && #[trigger] list@[k] == j;
                                assert(list@[k] == j as usize);
                            }
                            if list@.len() == 0 {
                                lemma_listed_len(list@, cells_in(self.board(), Stage::Pending));
                                assert(cells_in(self.board(), Stage::Pending) =~= Set::<
                                    int,
                                >::empty());
                            }
                        }
                        Ok(list)
                    },
                    None => Err(Unsatisfiable),
                }
            },
        }
    }

    /// Fills in every cell. Propagates from the cells that are settled at the
    /// start; then, as long as a cell is `Unknown`, fixes one with the fewest
    /// candidates at random and propagates from it, going back on every
    /// contradiction. Fails when a contradiction comes up and no board is
    /// kept to go back to.
    pub fn solve(&mut self) -> (r: Result<(), Unsatisfiable>)
        requires
            old(self).inv(),
        ensures
            final(self).carries_on(old(self)),
            // On success every cell is collapsed, each to one of the
            // candidates it had at the root, the cells settled there to the
            // state they held.
            r is Ok ==> forall|j: int| 0 <= j < S ==> (#[trigger] final(self).board()[j]) is Collapsed,
            r is Ok ==> fits(states_of(final(self).board()), final(self).root()),
            // The board is lawful then, unless a loose board was taken up
            // again, which happens only when no solution fills the root.
            old(self).sound() ==> final(self).sound(),
            old(self).sound() && !final(self).tainted() ==> final(self).lawful(),
            old(self).sound() && old(self).covers() && positive(old(self).weighting(), N)
                && !final(self).unsolvable() ==> final(self).lawful(),
            // It fails only with no board kept. Where every state can be
            // drawn no solution is lost, and on failure none fills the root:
            // where one does, the solver succeeds.
            r is Err ==> final(self).snapshots().len() == 0,
            positive(old(self).weighting(), N) && old(self).covers() ==> final(self).covers() && (r
                is Err ==> final(self).unsolvable()),
            // With no board kept at the start, the board came from the board
            // at the start by settling.
            r is Ok && old(self).snapshots().len() == 0 ==> refines(
                final(self).board(),
                old(self).board(),
            ),
            // Every cell that was chosen to be fixed was, on the board it was
            // chosen on, an `Unknown` cell with the fewest candidates.
            old(self).picks().len() <= final(self).picks().len(),
            final(self).picks().take(old(self).picks().len() as int) == old(self).picks(),
            forall|k: int|
                old(self).picks().len() <= k < final(self).picks().len() ==> lowest_cells(
                    (#[trigger] final(self).picks()[k]).0,
                ).contains(final(self).picks()[k].1 as int),
            // Without `Unknown` cells the cells are collapsed and that is
            // all: no board is kept or dropped, no random number drawn.
            cells_in(old(self).board(), Stage::Open) == Set::<int>::empty() ==> {
                &&& r is Ok
                &&& final(self).generator() == old(self).generator()
                &&& final(self).snapshots() == old(self).snapshots()
                &&& forall|j: int|
                    0 <= j < S ==> #[trigger] final(self).cells()[j] == old(self).cells()[j].collapse()
            },
    {
        let start = list_cells(&self.state, Stage::Settled);
        let ghost quiet = cells_in(self.board(), Stage::Open) == Set::<int>::empty();
        let ghost listed = start@;
        proof {
            assert forall|j: int|
                0 <= j < S && (#[trigger] self.board()[j]).is_settled() implies listed.contains(
                j as usize,
            ) by {
                assert(cells_in(self.board(), Stage::Settled).contains(j));
                let k = choose|k: int| 0 <= k < listed.len() && #[trigger] listed[k] == j;
                assert(listed[k] == j as usize);
            }
            if listed.len() == 0 {
                lemma_listed_len(listed, cells_in(self.board(), Stage::Settled));
                assert(cells_in(self.board(), Stage::Settled) =~= Set::<int>::empty());
                assert(self.stable());
            }
        }
        match self.propagate(start) {
            Err(e) => {
                return Err(e);
            },
            Ok(()) => {},
        }
        proof {
            if quiet {
                assert forall|j: int| 0 <= j < S implies #[trigger] self.cells()[j] == old(
                    self,
                ).cells()[j].collapse() by {
                    if !old(self).board()[j].is_settled() {
                        assert(cells_in(old(self).board(), Stage::Open).contains(j));
                    }
                }
            }
        }
        loop
            invariant
                self.inv(),
                self.same_rules(old(self)),
                cells_in(self.board(), Stage::Pending) == Set::<int>::empty(),
                quiet == (cells_in(old(self).board(), Stage::Open) == Set::<int>::empty()),
                quiet ==> {
                    &&& self.generator() == old(self).generator()
                    &&& self.snapshots() == old(self).snapshots()
                    &&& forall|j: int|
                        0 <= j < S ==> #[trigger] self.cells()[j] == old(self).cells()[j].collapse()
                },
                positive(old(self).weighting(), N) && old(self).covers() ==> self.covers(),
                self.loose() <= old(self).loose(),
                old(self).tainted() ==> self.tainted(),
                old(self).loose() == 0 ==> self.tainted() == old(self).tainted(),
                old(self).sound() ==> self.sound() && (!self.tainted() ==> self.stable()),
                old(self).tidy() ==> self.tidy(),
                old(self).snapshots().len() == 0 ==> refines(self.board(), old(self).board())
                    && forall|k: int|
                    0 <= k < self.snapshots().len() ==> refines(
                        #[trigger] self.snapshots()[k],
                        old(self).board(),
                    ),
                old(self).picks().len() <= self.picks().len(),
                self.picks().take(old(self).picks().len() as int) == old(self).picks(),
                forall|k: int|
                    old(self).picks().len() <= k < self.picks().len() ==> lowest_cells(
                        (#[trigger] self.picks()[k]).0,
                    ).contains(self.picks()[k].1 as int),
            decreases self.budget(),
        {
            match self.lowest_entropy() {
                None => {
                    proof {
                        assert forall|j: int| 0 <= j < S implies (#[trigger] self.board()[j])
                            is Collapsed by {
                            if self.board()[j] is Unknown {
                                assert(cells_in(self.board(), Stage::Open).contains(j));
                            }
                            if self.board()[j] is Reduced {
                                assert(cells_in(self.board(), Stage::Pending).contains(j));
                            }
                        }
                        lemma_settled_board_fits(self.board(), self.root(), N);
                    }
                    return Ok(());
                },
                Some(i) => {
                    proof {
                        assert(self.board()[i as int] is Unknown);
                        if quiet {
                            assert(self.board()[i as int] == self.cells()[i as int]@);
                            assert(old(self).board()[i as int] == old(self).cells()[i as int]@);
                            assert(cells_in(old(self).board(), Stage::Open).contains(i as int));
                        }
                    }
                    let ghost chosen_on = *self;
                    match self.observe(i) {
                        Err(e) => {
                            return Err(e);
                        },
                        Ok(list) => {
                            let ghost fixed = *self;
                            proof {
                                assert(fixed.picks().take(old(self).picks().len() as int)
                                    =~= old(self).picks());
                                if old(self).snapshots().len() == 0 {
                                    assert(refines(chosen_on.board(), chosen_on.board()));
                                    assert(refines(fixed.board(), old(self).board())) by {
                                        if fixed.snapshots() == chosen_on.snapshots().push(
                                            chosen_on.board(),
                                        ) {
                                            assert(refines(fixed.board(), chosen_on.board()));
                                            lemma_refines_trans(
                                                fixed.board(),
                                                chosen_on.board(),
                                                old(self).board(),
                                            );
                                        }
                                    }
                                }
                            }
                            match self.propagate(list) {
                                Err(e) => {
                                    return Err(e);
                                },
                                Ok(()) => {},
                            }
                            proof {
                                if old(self).snapshots().len() == 0 {
                                    if self.snapshots() == fixed.snapshots() {
                                        lemma_refines_trans(
                                            self.board(),
                                            fixed.board(),
                                            old(self).board(),
                                        );
                                    } else {
                                        let n = self.snapshots().len() as int;
                                        assert(refines(fixed.snapshots()[n], old(self).board()));
                                        lemma_refines_trans(
                                            self.board(),
                                            fixed.snapshots()[n],
                                            old(self).board(),
                                        );
                                        assert forall|k: int|
                                            0 <= k < self.snapshots().len() implies refines(
                                            #[trigger] self.snapshots()[k],
                                            old(self).board(),
                                        ) by {
                                            assert(self.snapshots()[k] == fixed.snapshots()[k]);
                                        }
                                    }
                                }
                            }
                        },
                    }
                },
            }
        }
    }

    /// Moves the content of the board by the distance of `pan`: every cell
    /// takes the content of its source, and becomes a fresh `Unknown` cell
    /// where it has none. Cells are filled in rising order where the sources
    /// lie ahead, and in falling order where they lie behind.
    fn pan_direction(&mut self, pan: &Pan, row_len: usize)
        requires
            old(self).inv(),
            row_len > 0,
        ensures
            final(self).board() == panned(old(self).board(), *pan, row_len as int, fresh(N)),
            valid_board(final(self).board(), N),
            final(self).snapshots() == old(self).snapshots(),
            final(self).same_rules(old(self)),
            final(self).same_record(old(self)),
            final(self).generator() == old(self).generator(),
    {
        let ghost start = self.board();
        let ghost start_cells = self.cells();
        let ghost target = panned(start, *pan, row_len as int, fresh(N));
        let ascending: bool = match pan {
            Pan::Left(_) => true,
            Pan::Up(_) => true,
            _ => false,
        };
        let mut step: usize = 0;
        while step < S
            invariant
                step <= S,
                row_len > 0,
                ascending == pan.reads_ahead(),
                start == old(self).board(),
                start_cells == old(self).cells(),
                start == views(start_cells),
                start.len() == S,
                valid_board(start, N),
                target == panned(start, *pan, row_len as int, fresh(N)),
                self.snapshots() == old(self).snapshots(),
                self.same_rules(old(self)),
                self.same_record(old(self)),
                self.generator() == old(self).generator(),
                forall|j: int|
                    0 <= j < S ==> (if (if ascending {
                        j < step
                    } else {
                        j >= S - step
                    }) {
                        (#[trigger] self.cells()[j])@ == target[j]
                    } else {
                        self.cells()[j] == start_cells[j]
                    }),
            decreases S - step,
        {
            let i: usize = if ascending {
                step
            } else {
                S - 1 - step
            };
            let ghost before = self.cells();
            let cell = match pan.source_of(row_len, S, i) {
                Some(j) => {
                    proof {
                        assert(before[j as int] == start_cells[j as int]);
                    }
                    self.state[j]
                },
                None => Cell::<N>::default(),
            };
            self.state[i] = cell;
            proof {
                assert(self.cells() =~= before.update(i as int, cell));
                assert(self.snapshots() =~= old(self).snapshots());
                assert(self.barreds() =~= old(self).barreds());
                assert(cell@ == target[i as int]);
            }
            step += 1;
        }
        proof {
            assert(self.board() =~= target);
            assert forall|j: int| 0 <= j < target.len() implies (#[trigger] target[j]).within(N) && (
            target[j].is_settled() ==> target[j].wf(N)) by {
                pan.lemma_source_in_board(row_len as int, S as int, j);
                match pan.source(row_len as int, S as int, j) {
                    Some(k) => {
                        assert(target[j] == start[k]);
                    },
                    None => {},
                }
            }
        }
    }

    /// Pans the board by the distance of `pan`, on rows of `row_len` cells.
    /// Every cell takes the content of the cell that lies the distance away
    /// against the direction, and becomes a fresh `Unknown` cell where that
    /// would lie outside the board. The boards kept are dropped for one copy
    /// of the new board, which is the root of the search from now on.
    pub fn pan(&mut self, pan: Pan, row_len: usize)
        requires
            old(self).inv(),
            row_len > 0,
        ensures
            final(self).inv(),
            final(self).topology() == old(self).topology(),
            final(self).constraint() == old(self).constraint(),
            final(self).weighting() == old(self).weighting(),
            final(self).generator() == old(self).generator(),
            final(self).board() == panned(old(self).board(), pan, row_len as int, fresh(N)),
            final(self).snapshots() == seq![final(self).board()],
            final(self).root() == final(self).board(),
            final(self).barred() == Seq::new(S as nat, |j: int| Set::<int>::empty()),
            final(self).barreds() == seq![final(self).barred()],
            final(self).picks() == old(self).picks(),
            final(self).covers(),
            final(self).sound(),
            !final(self).tainted(),
            final(self).loose() == 1,
            old(self).tidy() && N >= 2 ==> final(self).tidy(),
    {
        self.pan_direction(&pan, row_len);
        let snapshot = self.state;
        let mut history: Vec<[Cell<N>; S]> = Vec::new();
        history.push(snapshot);
        self.history = history;
        let nothing = [CandidateSet::empty();S];
        let mut barred_history: Vec<[CandidateSet; S]> = Vec::new();
        barred_history.push(nothing);
        self.barred = nothing;
        self.barred_history = barred_history;
        let ghost root = self.board();
        let ghost order = Seq::new(S as nat, |i: int| 0nat);
        let ghost orders = seq![order];
        self.root = Ghost(root);
        self.order = Ghost(order);
        self.orders = Ghost(orders);
        self.clock = Ghost(1);
        self.loose = Ghost(1);
        self.tainted = Ghost(false);
        proof {
            assert(self.snapshots() =~= seq![self.board()]);
            assert(refines(self.board(), self.board()));
            lemma_lawful_root::<NF, RF, N, S>(self.topology(), self.constraint(), self.root());
            assert(self.barred() =~= Seq::new(S as nat, |j: int| Set::<int>::empty()));
            assert(self.barreds() =~= seq![self.barred()]);
            lemma_without_nothing(self.board(), self.barred());
            assert(self.open_snapshots().skip(1) =~= Seq::<Seq<CellView>>::empty());
            if old(self).tidy() && N >= 2 {
                lemma_fresh_wf(N);
                let target = self.board();
                assert forall|j: int| 0 <= j < target.len() implies (#[trigger] target[j]).wf(
                    N,
                ) by {
                    pan.lemma_source_in_board(row_len as int, S as int, j);
                    match pan.source(row_len as int, S as int, j) {
                        Some(k) => {
                            assert(target[j] == old(self).board()[k]);
                        },
                        None => {},
                    }
                }
            }
        }
    }

    /// The `Unknown` cells with the fewest candidates, smallest index first.
    pub fn least_entropy_cells(&self) -> (r: Vec<usize>)
        ensures
            lists(r@, lowest_cells(self.board())),
            forall|k: int| 0 <= k < r@.len() ==> r@[k] < S,
            r@.len() == 0 <==> cells_in(self.board(), Stage::Open) == Set::<int>::empty(),
    {
        let ghost board = self.board();
        let mut ties: Vec<usize> = Vec::new();
        let mut least: usize = 0;
        let mut i: usize = 0;
        proof {
            assert(lowest_before(board, 0) =~= Set::<int>::empty());
        }
        while i < S
            invariant
                i <= S,
                board == self.board(),
                board.len() == S,
                lists(ties@, lowest_before(board, i as int)),
                forall|k: int| 0 <= k < ties@.len() ==> ties@[k] < S,
                forall|m: int| #[trigger]
                    lowest_before(board, i as int).contains(m) ==> board[m].entropy() == least,
                ties@.len() > 0 ==> forall|j: int|
                    0 <= j < i && (#[trigger] board[j]) is Unknown ==> least <= board[j].entropy(),
                ties@.len() == 0 ==> forall|j: int| 0 <= j < i ==> !((#[trigger] board[j]) is Unknown),
            decreases S - i,
        {
            let cell = self.state[i];
            let ghost seen = lowest_before(board, i as int);
            let ghost next = lowest_before(board, i + 1);
            proof {
                assert(board[i as int] == cell@);
                if ties@.len() > 0 {
                    assert(seen.contains(ties@[0] as int));
                }
            }
            if cell.is_unknown() {
                let e: usize = cell.entropy();
                if ties.len() == 0 || e < least {
                    ties = Vec::new();
                    ties.push(i);
                    least = e;
                    proof {
                        assert(next =~= set![i as int]);
                        assert(Seq::<usize>::empty().push(i) =~= ties@);
                        lemma_lists_push(Seq::<usize>::empty(), Set::<int>::empty(), i);
                        assert(Set::<int>::empty().insert(i as int) =~= set![i as int]);
                    }
                } else if e == least {
                    proof {
                        lemma_lists_push(ties@, seen, i);
                        assert(next =~= seen.insert(i as int));
                    }
                    ties.push(i);
                } else {
                    proof {
                        assert(next =~= seen);
                    }
                }
            } else {
                proof {
                    assert(next =~= seen);
                }
            }
            i += 1;
        }
        proof {
            let open = cells_in(board, Stage::Open);
            if ties@.len() == 0 {
                assert(open =~= Set::<int>::empty());
            } else {
                assert(lowest_cells(board).contains(ties@[0] as int));
                assert(open.contains(ties@[0] as int));
            }
        }
        ties
    }

    /// One of the `Unknown` cells with the fewest candidates, picked at
    /// random among them; nothing, and no draw, when no cell is `Unknown`.
    pub fn lowest_entropy(&mut self) -> (r: Option<usize>)
        ensures
            final(self).cells() == old(self).cells(),
            final(self).snapshots() == old(self).snapshots(),
            final(self).same_rules(old(self)),
            final(self).same_record(old(self)),
            match r {
                Some(i) => i < S && lowest_cells(old(self).board()).contains(i as int),
                None => {
                    &&& cells_in(old(self).board(), Stage::Open) == Set::<int>::empty()
                    &&& final(self).generator() == old(self).generator()
                },
            },
    {
        let ties = self.least_entropy_cells();
        if ties.len() == 0 {
            return None;
        }
        let r = choose_one(&ties, &mut self.rng);
        proof {
            assert(self.snapshots() =~= old(self).snapshots());
            assert(self.barreds() =~= old(self).barreds());
            let k = choose|k: int| 0 <= k < ties@.len() && ties@[k] == r.unwrap();
            assert(lowest_cells(old(self).board()).contains(ties@[k] as int));
        }
        r
    }
}

/// Collects what a [`Solver`] is made of: the two functions it cannot do
/// without and, as wished, a seed, a board to start from and weights.
pub struct SolverBuilder<NF, RF, WF, const N: usize, const S: usize> {
    seed: Option<u64>,
    state: Option<[Cell<N>; S]>,
    neighbors: NF,
    reducer: RF,
    weights: WF,
}

// `new` stands on the builder without a weight function, so that a call of
// `SolverBuilder::new` need not name the type of one.
impl<NF, RF, const N: usize, const S: usize> SolverBuilder<NF, RF, (), N, S> where
    NF: Fn(usize) -> Vec<usize>,
    RF: Fn(Vec<(usize, usize)>, usize) -> CandidateSet,
 {
    /// A builder with the neighbour function and the reducer, without a seed
    /// or a board, and with the same weight for every state.
    pub fn new(neighbors: NF, reducer: RF) -> (r: SolverBuilder<
        NF,
        RF,
        impl Fn(&usize) -> usize,
        N,
        S,
    >)
        ensures
            weights_ok(r.weighting(), N),
            r.topology() == neighbors,
            r.constraint() == reducer,
            r.seed_given() is None,
            r.initial() is None,
            forall|s: usize, w: usize| call_ensures(r.weighting(), (&s,), w) ==> w == 1,
    {
        proof {
            lemma_unit_weights_fit(uniform, N);
        }
        SolverBuilder { seed: None, state: None, neighbors, reducer, weights: uniform }
    }
}

impl<NF, RF, WF, const N: usize, const S: usize> SolverBuilder<NF, RF, WF, N, S> where
    NF: Fn(usize) -> Vec<usize>,
    RF: Fn(Vec<(usize, usize)>, usize) -> CandidateSet,
    WF: Fn(&usize) -> usize,
 {
    /// A builder with the three functions, without a seed or a board.
    pub fn with_weights(neighbors: NF, reducer: RF, weights: WF) -> (r: Self)
        ensures
            r.topology() == neighbors,
            r.constraint() == reducer,
            r.weighting() == weights,
            r.seed_given() is None,
            r.initial() is None,
    {
        SolverBuilder { seed: None, state: None, neighbors, reducer, weights }
    }

    /// The neighbour function.
    pub closed spec fn topology(&self) -> NF {
        self.neighbors
    }

    /// The reducer.
    pub closed spec fn constraint(&self) -> RF {
        self.reducer
    }

    /// The weight function.
    pub closed spec fn weighting(&self) -> WF {
        self.weights
    }

    /// The seed, if one was given.
    pub closed spec fn seed_given(&self) -> Option<u64> {
        self.seed
    }

    /// The cells to start from, if a board was given.
    pub closed spec fn initial(&self) -> Option<Seq<Cell<N>>> {
        match self.state {
            Some(cells) => Some(cells@),
            None => None,
        }
    }

    /// The functions can be called as the solver calls them, a candidate
    /// set can hold the `N` states, and every settled cell of the board to
    /// start from holds a state.
    pub open spec fn inv(&self) -> bool {
        &&& neighbors_ok(self.topology(), S)
        &&& reducer_ok(self.constraint(), N, S)
        &&& weights_ok(self.weighting(), N)
        &&& N <= CAPACITY
        &&& self.initial() matches Some(cells) ==> valid_board(views(cells), N)
    }

    /// Sets the seed of the random generator, so that a run can be repeated.
    pub fn seed(self, seed: u64) -> (r: Self)
        ensures
            r.seed_given() == Some(seed),
            r.initial() == self.initial(),
            r.topology() == self.topology(),
            r.constraint() == self.constraint(),
            r.weighting() == self.weighting(),
    {
        SolverBuilder {
            seed: Some(seed),
            state: self.state,
            neighbors: self.neighbors,
            reducer: self.reducer,
            weights: self.weights,
        }
    }

    /// Sets the board to start from.
    pub fn state(self, state: SolverState<N, S>) -> (r: Self)
        ensures
            r.initial() == Some(state@),
            r.seed_given() == self.seed_given(),
            r.topology() == self.topology(),
            r.constraint() == self.constraint(),
            r.weighting() == self.weighting(),
    {
        SolverBuilder {
            seed: self.seed,
            state: Some(state),
            neighbors: self.neighbors,
            reducer: self.reducer,
            weights: self.weights,
        }
    }

    /// Sets the weight function.
    pub fn weights<W: Fn(&usize) -> usize>(self, weights: W) -> (r: SolverBuilder<NF, RF, W, N, S>)
        ensures
            r.weighting() == weights,
            r.seed_given() == self.seed_given(),
            r.initial() == self.initial(),
            r.topology() == self.topology(),
            r.constraint() == self.constraint(),
    {
        SolverBuilder {
            seed: self.seed,
            state: self.state,
            neighbors: self.neighbors,
            reducer: self.reducer,
            weights,
        }
    }

    /// Makes the solver: on the board given, or on a board of fresh cells;
    /// with a generator started from the seed given, or from the system's
    /// random source, or from seed 0 where that source fails. No
    /// board is kept yet, and the board is the root of the search.
    pub fn build(self) -> (r: Solver<NF, RF, WF, N, S>)
        requires
            self.inv(),
        ensures
            r.inv(),
            r.topology() == self.topology(),
            r.constraint() == self.constraint(),
            r.weighting() == self.weighting(),
            self.initial() matches Some(cells) ==> r.cells() == cells,
            self.initial() is None ==> r.board() == Seq::new(S as nat, |i: int| fresh(N)),
            r.snapshots() == Seq::<Seq<CellView>>::empty(),
            r.root() == r.board(),
            r.barred() == Seq::new(S as nat, |j: int| Set::<int>::empty()),
            r.barreds() == Seq::<Seq<Set<int>>>::empty(),
            r.picks() == Seq::<(Seq<CellView>, usize)>::empty(),
            r.covers(),
            r.sound(),
            !r.tainted(),
            r.loose() == 0,
            (match self.initial() {
                Some(cells) => well_formed(views(cells), N),
                None => N >= 2,
            }) ==> r.tidy(),
    {
        let state: [Cell<N>; S] = match self.state {
            Some(state) => state,
            None => [Cell::<N>::default();S],
        };
        let rng = match self.seed {
            Some(seed) => seeded_generator(seed),
            None => match fresh_generator() {
                Some(rng) => rng,
                None => seeded_generator(0),
            },
        };
        let r = Solver {
            state,
            history: Vec::new(),
            barred: [CandidateSet::empty();S],
            barred_history: Vec::new(),
            neighbors: self.neighbors,
            reducer: self.reducer,
            weights: self.weights,
            rng,
            root: Ghost(views(state@)),
            order: Ghost(Seq::new(S as nat, |i: int| 0nat)),
            orders: Ghost(Seq::<Seq<nat>>::empty()),
            clock: Ghost(1),
            loose: Ghost(0),
            tainted: Ghost(false),
            picks: Ghost(Seq::<(Seq<CellView>, usize)>::empty()),
        };
        proof {
            assert(r.snapshots() =~= Seq::<Seq<CellView>>::empty());
            lemma_lawful_root::<NF, RF, N, S>(r.topology(), r.constraint(), r.root());
            assert(r.barred() =~= Seq::new(S as nat, |j: int| Set::<int>::empty()));
            assert(r.barreds() =~= Seq::<Seq<Set<int>>>::empty());
            lemma_without_nothing(r.board(), r.barred());
            assert(r.open_snapshots().skip(0) =~= Seq::<Seq<CellView>>::empty());
            if N >= 2 {
                lemma_fresh_wf(N);
            }
            assert(refines(r.board(), r.board()));
            if self.initial() is None {
                assert(r.board() =~= Seq::new(S as nat, |i: int| fresh(N)));
            }
            assert forall|i: int| 0 <= i < r.board().len() implies (#[trigger] r.board()[i]).within(
                N,
            ) by {
                r.cells()[i].lemma_view_within();
            }
        }
        r
    }
}

} // verus!
