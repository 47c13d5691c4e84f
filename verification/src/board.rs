//! Boards as sequences of cell views: which cells are in which stage, how
//! much of the search is left, and when one board has come from another.

use crate::candidates::{lemma_lists_push, lists};
use crate::cell::{Cell, CellView};
use vstd::arithmetic::power2::{
    lemma_pow2_pos, lemma_pow2_strictly_increases, lemma_pow2_unfold, pow2,
};
use vstd::prelude::*;
use vstd::set_lib::*;

verus! {

/// A way to pick cells by how far they are settled.
#[derive(Clone, Copy)]
pub enum Stage {
    /// Cells that are `Unknown`.
    Open,
    /// Cells that are `Reduced` and not yet `Collapsed`.
    Pending,
    /// Cells that are `Reduced` or `Collapsed`.
    Settled,
}

impl Stage {
    /// Whether `cell` is in this stage.
    pub open spec fn holds(self, cell: CellView) -> bool {
        match self {
            Stage::Open => cell is Unknown,
            Stage::Pending => cell is Reduced,
            Stage::Settled => cell.is_settled(),
        }
    }

    /// Whether `cell` is in this stage.
    pub fn test<const N: usize>(self, cell: &Cell<N>) -> (r: bool)
        ensures
            r == self.holds(cell@),
    {
        match self {
            Stage::Open => cell.is_unknown(),
            Stage::Pending => cell.is_reduced(),
            Stage::Settled => !cell.is_unknown(),
        }
    }
}

/// The views of a row of cells.
pub open spec fn views<const N: usize>(cells: Seq<Cell<N>>) -> Seq<CellView> {
    Seq::new(cells.len(), |i: int| cells[i]@)
}

/// The indices below `end` of the cells of `board` that are in `stage`.
pub open spec fn cells_before(board: Seq<CellView>, stage: Stage, end: int) -> Set<int> {
    Set::new(|i: int| 0 <= i < end && i < board.len() && stage.holds(board[i]))
}

/// The indices of the cells of `board` that are in `stage`.
pub open spec fn cells_in(board: Seq<CellView>, stage: Stage) -> Set<int> {
    cells_before(board, stage, board.len() as int)
}

/// Every candidate on `board` is a state below `states`, and every settled
/// cell has the state it holds as its one candidate.
pub open spec fn valid_board(board: Seq<CellView>, states: usize) -> bool {
    forall|i: int|
        0 <= i < board.len() ==> (#[trigger] board[i]).within(states) && (board[i].is_settled()
            ==> board[i].wf(states))
}

/// A settled cell of a valid board holds a state below `states`.
pub proof fn lemma_valid_state(board: Seq<CellView>, states: usize, i: int)
    requires
        valid_board(board, states),
        0 <= i < board.len(),
        board[i].is_settled(),
    ensures
        board[i].value().unwrap() < states,
        board[i].domain() == set![board[i].value().unwrap() as int],
{
    assert(board[i].wf(states));
    assert(board[i].domain().contains(board[i].value().unwrap() as int));
}

/// Every cell of `board` is one that the state machine produces: an
/// `Unknown` cell has at least two candidates, a settled one exactly the
/// state it holds.
pub open spec fn well_formed(board: Seq<CellView>, states: usize) -> bool {
    forall|i: int| 0 <= i < board.len() ==> (#[trigger] board[i]).wf(states)
}

/// Every cell of `board` and of each of `snapshots` is one that the state
/// machine produces.
pub open spec fn all_well_formed(
    board: Seq<CellView>,
    snapshots: Seq<Seq<CellView>>,
    states: usize,
) -> bool {
    &&& well_formed(board, states)
    &&& forall|k: int| 0 <= k < snapshots.len() ==> well_formed(#[trigger] snapshots[k], states)
}

/// A fresh cell is one that the state machine produces, where there are at
/// least two states.
pub proof fn lemma_fresh_wf(states: usize)
    requires
        states >= 2,
    ensures
        crate::cell::fresh(states).wf(states),
{
    let most: int = if states <= crate::candidates::CAPACITY {
        states as int
    } else {
        crate::candidates::CAPACITY as int
    };
    lemma_int_range(0, most);
}

/// The states that the cells of a board without `Unknown` cells hold.
pub open spec fn states_of(board: Seq<CellView>) -> Seq<usize> {
    Seq::new(board.len(), |i: int| board[i].value().unwrap())
}

/// A valid board without `Unknown` cells that came from another by settling
/// fills it: every cell holds one of the candidates it had, and the cells
/// that were settled hold what they held.
pub proof fn lemma_settled_board_fits(board: Seq<CellView>, earlier: Seq<CellView>, states: usize)
    requires
        valid_board(board, states),
        refines(board, earlier),
        forall|i: int| 0 <= i < board.len() ==> (#[trigger] board[i]).is_settled(),
    ensures
        fits(states_of(board), earlier),
        fits(states_of(board), board),
{
    assert forall|i: int| 0 <= i < board.len() implies (#[trigger] earlier[i]).admits(
        states_of(board)[i],
    ) && (#[trigger] board[i]).admits(states_of(board)[i]) by {
        lemma_valid_state(board, states, i);
        assert(board[i].refines(earlier[i]));
    }
}

/// Cell by cell, `board` can have come from `earlier` by settling.
pub open spec fn refines(board: Seq<CellView>, earlier: Seq<CellView>) -> bool {
    &&& board.len() == earlier.len()
    &&& forall|i: int| 0 <= i < board.len() ==> (#[trigger] board[i]).refines(earlier[i])
}

/// The settled cells among `around`, in that order, each with its state.
pub open spec fn settled_among(board: Seq<CellView>, around: Seq<usize>) -> Seq<(usize, usize)>
    decreases around.len(),
{
    if around.len() == 0 {
        Seq::empty()
    } else {
        let before = settled_among(board, around.drop_last());
        let j = around.last();
        if j < board.len() && board[j as int].value() is Some {
            before.push((j, board[j as int].value().unwrap()))
        } else {
            before
        }
    }
}

/// `assignment` fills `board`: it gives every cell a state that the cell
/// admits.
pub open spec fn fits(assignment: Seq<usize>, board: Seq<CellView>) -> bool {
    &&& assignment.len() == board.len()
    &&& forall|i: int| 0 <= i < board.len() ==> (#[trigger] board[i]).admits(assignment[i])
}

/// The cells among `around` that are in `known`, in that order, each with
/// the state that `assignment` gives it.
pub open spec fn assigned_among(assignment: Seq<usize>, known: Set<int>, around: Seq<usize>) -> Seq<
    (usize, usize),
>
    decreases around.len(),
{
    if around.len() == 0 {
        Seq::empty()
    } else {
        let before = assigned_among(assignment, known, around.drop_last());
        let j = around.last();
        if j < assignment.len() && known.contains(j as int) {
            before.push((j, assignment[j as int]))
        } else {
            before
        }
    }
}

/// On a board that an assignment fills, the settled cells among `around`
/// hold the states that the assignment gives them.
pub proof fn lemma_fit_settled_among(
    assignment: Seq<usize>,
    board: Seq<CellView>,
    around: Seq<usize>,
)
    requires
        fits(assignment, board),
    ensures
        settled_among(board, around) == assigned_among(
            assignment,
            cells_in(board, Stage::Settled),
            around,
        ),
    decreases around.len(),
{
    if around.len() > 0 {
        lemma_fit_settled_among(assignment, board, around.drop_last());
        let j = around.last();
        if j < board.len() {
            assert(board[j as int].admits(assignment[j as int]));
        }
    }
}

/// What a cell adds to a board's load: one for an `Unknown` cell when
/// `counting`, else the number of its candidates; nothing for a settled cell.
pub open spec fn cell_load(cell: CellView, counting: bool) -> nat {
    match cell {
        CellView::Unknown(d) => if counting {
            1
        } else {
            d.len()
        },
        _ => 0,
    }
}

/// The loads of the cells of `board`, added up.
pub open spec fn load(board: Seq<CellView>, counting: bool) -> nat
    decreases board.len(),
{
    if board.len() == 0 {
        0
    } else {
        load(board.drop_last(), counting) + cell_load(board.last(), counting)
    }
}

/// The number of `Unknown` cells.
pub open spec fn unknown_total(board: Seq<CellView>) -> nat {
    load(board, true)
}

/// The number of candidates over all `Unknown` cells.
pub open spec fn open_total(board: Seq<CellView>) -> nat {
    load(board, false)
}

/// The board with the barred states taken from the candidates of its
/// `Unknown` cells: what of the board is still open to the search.
pub open spec fn without(board: Seq<CellView>, barred: Seq<Set<int>>) -> Seq<CellView> {
    Seq::new(board.len(), |j: int| board[j].without(barred[j]))
}

/// With no state barred the whole board is open.
pub proof fn lemma_without_nothing(board: Seq<CellView>, barred: Seq<Set<int>>)
    requires
        forall|j: int| 0 <= j < board.len() ==> #[trigger] barred[j] == Set::<int>::empty(),
    ensures
        without(board, barred) == board,
{
    assert forall|j: int| 0 <= j < board.len() implies without(board, barred)[j] == board[j] by {
        assert(barred[j] == Set::<int>::empty());
        assert(board[j].domain().difference(Set::<int>::empty()) =~= board[j].domain());
    }
    assert(without(board, barred) =~= board);
}

/// A board that came from another by settling has no more open, with the
/// same states barred, than the other.
pub proof fn lemma_open_load(
    board: Seq<CellView>,
    earlier: Seq<CellView>,
    barred: Seq<Set<int>>,
    states: usize,
    counting: bool,
)
    requires
        refines(board, earlier),
        valid_board(earlier, states),
    ensures
        load(without(board, barred), counting) <= load(without(earlier, barred), counting),
{
    let a = without(board, barred);
    let b = without(earlier, barred);
    assert forall|j: int| 0 <= j < a.len() implies cell_load(#[trigger] a[j], counting)
        <= cell_load(b[j], counting) by {
        assert(board[j].refines(earlier[j]));
        assert(earlier[j].within(states));
        earlier[j].lemma_within_finite(states);
        if board[j] is Unknown {
            lemma_len_subset(earlier[j].domain().difference(barred[j]), earlier[j].domain());
            lemma_len_subset(
                board[j].domain().difference(barred[j]),
                earlier[j].domain().difference(barred[j]),
            );
        }
    }
    lemma_load_le(a, b, counting);
}

/// What fills the open part of a board fills the board.
pub proof fn lemma_fits_open(assignment: Seq<usize>, board: Seq<CellView>, barred: Seq<Set<int>>)
    requires
        fits(assignment, without(board, barred)),
    ensures
        fits(assignment, board),
{
    assert forall|j: int| 0 <= j < board.len() implies (#[trigger] board[j]).admits(
        assignment[j],
    ) by {
        assert(without(board, barred)[j].admits(assignment[j]));
    }
}

/// A bound on the boards that a search from `board` can still visit. Each
/// choice splits a board in two, each with fewer open candidates.
pub open spec fn search_bound(board: Seq<CellView>) -> nat {
    (pow2(open_total(board) + 1) - 1) as nat
}

/// The search bounds of the boards on a stack, added up.
pub open spec fn stack_bound(stack: Seq<Seq<CellView>>) -> nat
    decreases stack.len(),
{
    if stack.len() == 0 {
        0
    } else {
        stack_bound(stack.drop_last()) + search_bound(stack.last())
    }
}

/// A board whose cells each load no more than those of another loads no more
/// in all.
pub proof fn lemma_load_le(a: Seq<CellView>, b: Seq<CellView>, counting: bool)
    requires
        a.len() == b.len(),
        forall|i: int|
            0 <= i < a.len() ==> cell_load(#[trigger] a[i], counting) <= cell_load(b[i], counting),
    ensures
        load(a, counting) <= load(b, counting),
    decreases a.len(),
{
    if a.len() > 0 {
        assert forall|i: int| 0 <= i < a.drop_last().len() implies cell_load(
            #[trigger] a.drop_last()[i],
            counting,
        ) <= cell_load(b.drop_last()[i], counting) by {
            assert(a.drop_last()[i] == a[i]);
        }
        assert(cell_load(a[a.len() - 1], counting) <= cell_load(b[a.len() - 1], counting));
        lemma_load_le(a.drop_last(), b.drop_last(), counting);
    }
}

/// If in addition one cell loads less, the board loads less.
pub proof fn lemma_load_lt(a: Seq<CellView>, b: Seq<CellView>, counting: bool, at: int)
    requires
        a.len() == b.len(),
        forall|i: int|
            0 <= i < a.len() ==> cell_load(#[trigger] a[i], counting) <= cell_load(b[i], counting),
        0 <= at < a.len(),
        cell_load(a[at], counting) < cell_load(b[at], counting),
    ensures
        load(a, counting) < load(b, counting),
    decreases a.len(),
{
    assert forall|i: int| 0 <= i < a.drop_last().len() implies cell_load(
        #[trigger] a.drop_last()[i],
        counting,
    ) <= cell_load(b.drop_last()[i], counting) by {
        assert(a.drop_last()[i] == a[i]);
    }
    assert(cell_load(a[a.len() - 1], counting) <= cell_load(b[a.len() - 1], counting));
    if at == a.len() - 1 {
        lemma_load_le(a.drop_last(), b.drop_last(), counting);
    } else {
        assert(a.drop_last()[at] == a[at]);
        lemma_load_lt(a.drop_last(), b.drop_last(), counting, at);
    }
}

/// A cell that came from another by settling loads no more than it.
pub proof fn lemma_refined_cell_load(cell: CellView, earlier: CellView, states: usize, counting: bool)
    requires
        cell.refines(earlier),
        earlier.within(states),
    ensures
        cell_load(cell, counting) <= cell_load(earlier, counting),
        cell.within(states),
{
    earlier.lemma_within_finite(states);
    lemma_len_subset(cell.domain(), earlier.domain());
}

/// A board that came from another by settling loads no more than it.
pub proof fn lemma_refined_load(
    board: Seq<CellView>,
    earlier: Seq<CellView>,
    states: usize,
    counting: bool,
)
    requires
        refines(board, earlier),
        valid_board(earlier, states),
    ensures
        load(board, counting) <= load(earlier, counting),
{
    assert forall|i: int| 0 <= i < board.len() implies cell_load(#[trigger] board[i], counting)
        <= cell_load(earlier[i], counting) by {
        lemma_refined_cell_load(board[i], earlier[i], states, counting);
    }
    lemma_load_le(board, earlier, counting);
}

/// Settling is transitive.
pub proof fn lemma_refines_trans(a: Seq<CellView>, b: Seq<CellView>, c: Seq<CellView>)
    requires
        refines(a, b),
        refines(b, c),
    ensures
        refines(a, c),
{
    assert forall|i: int| 0 <= i < a.len() implies (#[trigger] a[i]).refines(c[i]) by {
        assert(a[i].refines(b[i]));
        assert(b[i].refines(c[i]));
    }
}

/// The search bound is positive and grows with the open candidates.
pub proof fn lemma_search_bound_le(a: Seq<CellView>, b: Seq<CellView>)
    requires
        open_total(a) <= open_total(b),
    ensures
        1 <= search_bound(a) <= search_bound(b),
{
    lemma_pow2_pos(open_total(a));
    lemma_pow2_unfold(open_total(a) + 1);
    if open_total(a) < open_total(b) {
        lemma_pow2_strictly_increases(open_total(a) + 1, open_total(b) + 1);
    }
}

/// Two boards with fewer open candidates than a third have, together, a
/// smaller search bound than it.
pub proof fn lemma_search_bound_split(
    left: Seq<CellView>,
    right: Seq<CellView>,
    whole: Seq<CellView>,
)
    requires
        open_total(left) < open_total(whole),
        open_total(right) < open_total(whole),
    ensures
        search_bound(left) + search_bound(right) < search_bound(whole),
{
    let w = open_total(whole);
    lemma_pow2_pos(open_total(left) + 1);
    lemma_pow2_pos(open_total(right) + 1);
    lemma_pow2_pos(w);
    lemma_pow2_unfold(w + 1);
    if open_total(left) + 1 < w {
        lemma_pow2_strictly_increases(open_total(left) + 1, w);
    }
    if open_total(right) + 1 < w {
        lemma_pow2_strictly_increases(open_total(right) + 1, w);
    }
}

/// Pushing a board adds its search bound to that of the stack.
pub proof fn lemma_stack_bound_push(stack: Seq<Seq<CellView>>, board: Seq<CellView>)
    ensures
        stack_bound(stack.push(board)) == stack_bound(stack) + search_bound(board),
{
    assert(stack.push(board).drop_last() =~= stack);
}

/// The indices of the cells that are in `stage`, smallest first.
pub fn list_cells<const N: usize, const S: usize>(cells: &[Cell<N>; S], stage: Stage) -> (r: Vec<
    usize,
>)
    ensures
        lists(r@, cells_in(views(cells@), stage)),
        forall|k: int| 0 <= k < r@.len() ==> r@[k] < S,
{
    let ghost board = views(cells@);
    let mut r: Vec<usize> = Vec::new();
    let mut i: usize = 0;
    proof {
        assert(cells_before(board, stage, 0) =~= Set::<int>::empty());
    }
    while i < S
        invariant
            i <= S,
            board == views(cells@),
            board.len() == S,
            lists(r@, cells_before(board, stage, i as int)),
            forall|k: int| 0 <= k < r@.len() ==> r@[k] < S,
        decreases S - i,
    {
        if stage.test(&cells[i]) {
            proof {
                lemma_lists_push(r@, cells_before(board, stage, i as int), i);
                assert(cells_before(board, stage, i + 1) =~= cells_before(
                    board,
                    stage,
                    i as int,
                ).insert(i as int));
            }
            r.push(i);
        } else {
            proof {
                assert(cells_before(board, stage, i + 1) =~= cells_before(board, stage, i as int));
            }
        }
        i += 1;
    }
    r
}

} // verus!
