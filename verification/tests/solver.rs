use wave_function_collapse::candidates::CandidateSet;
use wave_function_collapse::cell::{Cell, CellState};
use wave_function_collapse::solver::{uniform, Pan, SolverBuilder, SolverState, Unsatisfiable};

fn set_of(members: &[usize]) -> CandidateSet {
    let mut set = CandidateSet::empty();
    for &m in members {
        set.insert(m);
    }
    set
}

fn values<const N: usize, const S: usize>(board: &[Cell<N>; S]) -> Vec<Option<usize>> {
    board.iter().map(|cell| cell.value()).collect()
}

fn alone(_: usize) -> Vec<usize> {
    Vec::new()
}

fn allow_all(_: Vec<(usize, usize)>, _: usize) -> CandidateSet {
    CandidateSet::empty()
}

/// The cells before and after a cell on a line of any length.
fn line(i: usize) -> Vec<usize> {
    let mut around = Vec::new();
    if i > 0 {
        around.push(i - 1);
    }
    around.push(i + 1);
    around
}

fn line_of_5(i: usize) -> Vec<usize> {
    line(i).into_iter().filter(|&j| j < 5).collect()
}

fn line_of_3(i: usize) -> Vec<usize> {
    line(i).into_iter().filter(|&j| j < 3).collect()
}

/// Every other cell of a board of three.
fn triangle(i: usize) -> Vec<usize> {
    (0..3).filter(|&j| j != i).collect()
}

/// A cell may not hold what a settled neighbour holds.
fn differ(settled: Vec<(usize, usize)>, _: usize) -> CandidateSet {
    let mut forbidden = CandidateSet::empty();
    for (_, value) in settled {
        forbidden.insert(value);
    }
    forbidden
}

/// A cell of four states has to hold what its settled neighbours hold.
fn agree(settled: Vec<(usize, usize)>, _: usize) -> CandidateSet {
    let mut forbidden = CandidateSet::empty();
    for (_, value) in settled {
        forbidden = forbidden.union(CandidateSet::full(4).difference(CandidateSet::singleton(value)));
    }
    forbidden
}

/// The four cells around a cell on a grid of 5 by 5.
fn grid_5(i: usize) -> Vec<usize> {
    let (x, y) = (i % 5, i / 5);
    let mut around = Vec::new();
    if x > 0 {
        around.push(i - 1);
    }
    if x < 4 {
        around.push(i + 1);
    }
    if y > 0 {
        around.push(i - 5);
    }
    if y < 4 {
        around.push(i + 5);
    }
    around
}

fn only_two(state: &usize) -> usize {
    if *state == 2 {
        3
    } else {
        0
    }
}

fn only_zero(state: &usize) -> usize {
    if *state == 0 {
        1
    } else {
        0
    }
}

#[test]
fn uniform_weighs_every_state_one() {
    assert_eq!(uniform(&0), 1);
    assert_eq!(uniform(&7), 1);
    assert_eq!(uniform(&usize::MAX), 1);
}

#[test]
fn builder_without_a_board_starts_from_fresh_cells() {
    let solver = SolverBuilder::<_, _, _, 4, 6>::new(alone, allow_all).seed(1).build();
    assert_eq!(solver.state().len(), 6);
    for cell in solver.state() {
        assert!(cell.is_unknown());
        assert_eq!(cell.state().members(), vec![0, 1, 2, 3]);
    }
    assert_eq!(solver.depth(), 0);
}

#[test]
fn builder_keeps_the_board_it_was_given() {
    let board = [Cell::<4>::reduced(3), Cell::default(), Cell::collapsed(1)];
    let solver = SolverBuilder::new(alone, allow_all).state(board).build();
    assert_eq!(values(solver.state()), vec![Some(3), None, Some(1)]);
    assert!(solver.state()[0].is_reduced());
    assert!(solver.state()[2].is_collapsed());
    assert_eq!(solver.depth(), 0);
}

#[test]
fn builder_without_a_seed_still_solves() {
    let mut solver = SolverBuilder::<_, _, _, 3, 5>::new(line_of_5, differ).build();
    assert_eq!(solver.solve(), Ok(()));
    let found = values(solver.state());
    for i in 0..4 {
        assert_ne!(found[i], found[i + 1]);
    }
}

#[test]
fn solve_without_unknown_cells_only_collapses() {
    let board = [
        Cell::<3>::reduced(0),
        Cell::collapsed(1),
        Cell::reduced(2),
        Cell::collapsed(0),
        Cell::reduced(0),
    ];
    let mut solver = SolverBuilder::new(line_of_5, differ).state(board).seed(7).build();
    assert_eq!(solver.solve(), Ok(()));
    assert_eq!(values(solver.state()), vec![Some(0), Some(1), Some(2), Some(0), Some(0)]);
    assert!(solver.state().iter().all(|cell| cell.is_collapsed()));
    assert_eq!(solver.depth(), 0);
    assert_eq!(solver.solve(), Ok(()));
    assert_eq!(values(solver.state()), vec![Some(0), Some(1), Some(2), Some(0), Some(0)]);
}

#[test]
fn solve_colours_a_grid() {
    for seed in 0..20 {
        let mut solver = SolverBuilder::<_, _, _, 3, 25>::new(grid_5, differ).seed(seed).build();
        assert_eq!(solver.solve(), Ok(()));
        let state = solver.state();
        assert!(state.iter().all(|cell| cell.is_collapsed()));
        for i in 0..25 {
            let value = state[i].value().unwrap();
            assert!(value < 3);
            assert_eq!(state[i].state().members(), vec![value]);
            for j in grid_5(i) {
                assert_ne!(state[j].value(), Some(value));
            }
        }
    }
}

#[test]
fn solve_keeps_the_cells_that_were_given() {
    let mut board = [Cell::<3>::default(); 25];
    board[0] = Cell::reduced(2);
    board[12] = Cell::collapsed(1);
    board[24] = Cell::reduced(0);
    let mut solver = SolverBuilder::new(grid_5, differ).state(board).seed(3).build();
    assert_eq!(solver.solve(), Ok(()));
    let state = solver.state();
    assert_eq!(state[0].value(), Some(2));
    assert_eq!(state[12].value(), Some(1));
    assert_eq!(state[24].value(), Some(0));
    for i in 0..25 {
        for j in grid_5(i) {
            assert_ne!(state[j].value(), state[i].value());
        }
    }
}

#[test]
fn solve_stays_within_the_candidates_given() {
    let mut board = [Cell::<4>::default(); 5];
    board[1] = Cell::unknown(set_of(&[1, 3]));
    board[3] = Cell::unknown(set_of(&[0, 3]));
    for seed in 0..10 {
        let mut solver = SolverBuilder::new(line_of_5, differ).state(board).seed(seed).build();
        assert_eq!(solver.solve(), Ok(()));
        let found = values(solver.state());
        assert!(found[1] == Some(1) || found[1] == Some(3));
        assert!(found[3] == Some(0) || found[3] == Some(3));
    }
}

#[test]
fn solve_with_one_seed_gives_one_board() {
    for seed in [0, 1, 2, 99, u64::MAX] {
        let mut first = SolverBuilder::<_, _, _, 3, 25>::new(grid_5, differ).seed(seed).build();
        let mut second = SolverBuilder::<_, _, _, 3, 25>::new(grid_5, differ).seed(seed).build();
        assert_eq!(first.solve(), Ok(()));
        assert_eq!(second.solve(), Ok(()));
        assert_eq!(values(first.state()), values(second.state()));
        for i in 0..25 {
            assert!(first.state()[i].state() == second.state()[i].state());
        }
        assert_eq!(first.depth(), second.depth());
    }
}

#[test]
fn solve_draws_only_states_of_positive_weight() {
    let mut solver = SolverBuilder::<_, _, _, 4, 6>::new(alone, allow_all)
        .weights(only_two)
        .seed(8)
        .build();
    assert_eq!(solver.solve(), Ok(()));
    assert_eq!(values(solver.state()), vec![Some(2); 6]);
}

#[test]
fn solve_reports_a_contradiction_among_the_given_cells() {
    let board = [Cell::<2>::reduced(0), Cell::default(), Cell::reduced(1)];
    let mut solver = SolverBuilder::new(line_of_3, differ).state(board).seed(1).build();
    assert_eq!(solver.solve(), Err(Unsatisfiable));
    assert_eq!(solver.depth(), 0);
}

#[test]
fn solve_reports_a_board_without_solution_after_searching() {
    for seed in 0..10 {
        let mut solver = SolverBuilder::<_, _, _, 2, 3>::new(triangle, differ).seed(seed).build();
        assert_eq!(solver.solve(), Err(Unsatisfiable));
        assert_eq!(solver.depth(), 0);
    }
}

#[test]
fn solve_fails_when_no_state_can_be_drawn() {
    let mut solver = SolverBuilder::<_, _, _, 3, 2>::new(alone, allow_all)
        .weights(|_: &usize| 0)
        .seed(1)
        .build();
    assert_eq!(solver.solve(), Err(Unsatisfiable));
}

/// Cell 0 may not hold 2 once cell 2 is settled; cell 1 may only hold 2, and
/// nothing at all once cell 0 holds 0.
fn wedge_neighbors(i: usize) -> Vec<usize> {
    match i {
        0 => vec![2],
        1 => vec![0],
        _ => Vec::new(),
    }
}

fn wedge_reducer(settled: Vec<(usize, usize)>, i: usize) -> CandidateSet {
    if i == 0 {
        set_of(&[2])
    } else if settled[0].1 == 0 {
        set_of(&[0, 1, 2])
    } else {
        set_of(&[0, 1])
    }
}

fn wedge_board() -> [Cell<3>; 3] {
    [Cell::default(), Cell::default(), Cell::reduced(0)]
}

#[test]
fn solve_goes_back_on_a_contradiction() {
    let mut went_back = 0;
    for seed in 0..40 {
        let mut solver = SolverBuilder::new(wedge_neighbors, wedge_reducer)
            .state(wedge_board())
            .seed(seed)
            .build();

        // From the cell that is given follows that cell 0 does not hold 2.
        assert_eq!(solver.propagate(vec![2]), Ok(()));
        assert_eq!(values(solver.state()), vec![None, None, Some(0)]);
        assert_eq!(solver.state()[0].state().members(), vec![0, 1]);
        assert_eq!(solver.depth(), 0);

        // Cell 0 has the fewest candidates; the board is kept as it is.
        assert_eq!(solver.lowest_entropy(), Some(0));
        let worklist = solver.observe(0).unwrap();
        assert_eq!(worklist, vec![0]);
        assert_eq!(solver.depth(), 1);
        let drawn = solver.state()[0].value().unwrap();
        assert!(drawn == 0 || drawn == 1);

        assert_eq!(solver.propagate(worklist), Ok(()));
        if drawn == 0 {
            // Which leaves cell 1 nothing: the solver is back on the board
            // that it kept.
            went_back += 1;
            assert_eq!(solver.depth(), 0);
            assert_eq!(values(solver.state()), vec![None, None, Some(0)]);
            assert_eq!(solver.state()[0].state().members(), vec![0, 1]);
            assert_eq!(solver.state()[1].state().members(), vec![0, 1, 2]);
        } else {
            assert_eq!(solver.depth(), 1);
        }
        // From there state 0 is not drawn for cell 0 again.
        assert_eq!(solver.solve(), Ok(()));
        assert_eq!(values(solver.state()), vec![Some(1), Some(2), Some(0)]);
        assert!(solver.state().iter().all(|cell| cell.is_collapsed()));
        assert_eq!(solver.lowest_entropy(), None);
    }
    assert!(went_back > 0);
    assert!(went_back < 40);
}

#[test]
fn solve_goes_back_and_still_fills_the_board() {
    for seed in 0..40 {
        let mut solver = SolverBuilder::new(wedge_neighbors, wedge_reducer)
            .state(wedge_board())
            .seed(seed)
            .build();
        assert_eq!(solver.solve(), Ok(()));
        assert_eq!(values(solver.state()), vec![Some(1), Some(2), Some(0)]);
        assert!(solver.state().iter().all(|cell| cell.is_collapsed()));
        assert_eq!(solver.depth(), 1);
    }
}

#[test]
fn propagate_runs_to_a_fixpoint() {
    let mut board = [Cell::<4>::default(); 5];
    board[0] = Cell::reduced(2);
    let mut solver = SolverBuilder::new(line_of_5, agree).state(board).seed(1).build();
    assert_eq!(solver.propagate(vec![0]), Ok(()));
    assert_eq!(values(solver.state()), vec![Some(2); 5]);
    assert!(solver.state().iter().all(|cell| cell.is_collapsed()));
    assert_eq!(solver.depth(), 0);
}

#[test]
fn propagate_with_an_empty_worklist_does_nothing() {
    let mut board = [Cell::<4>::default(); 5];
    board[0] = Cell::reduced(2);
    let mut solver = SolverBuilder::new(line_of_5, agree).state(board).seed(1).build();
    assert_eq!(solver.propagate(Vec::new()), Ok(()));
    assert_eq!(values(solver.state()), vec![Some(2), None, None, None, None]);
    assert!(solver.state()[0].is_reduced());
}

#[test]
fn propagate_narrows_without_settling() {
    let mut board = [Cell::<4>::default(); 3];
    board[1] = Cell::collapsed(3);
    let mut solver = SolverBuilder::new(line_of_3, differ).state(board).seed(1).build();
    assert_eq!(solver.propagate(vec![1]), Ok(()));
    assert_eq!(values(solver.state()), vec![None, Some(3), None]);
    assert_eq!(solver.state()[0].state().members(), vec![0, 1, 2]);
    assert_eq!(solver.state()[2].state().members(), vec![0, 1, 2]);
}

#[test]
fn propagate_fails_without_a_board_to_go_back_to() {
    let board = [Cell::<2>::reduced(0), Cell::default(), Cell::reduced(1)];
    let mut solver = SolverBuilder::new(line_of_3, differ).state(board).seed(1).build();
    assert_eq!(solver.propagate(vec![0, 2]), Err(Unsatisfiable));
}

#[test]
fn revise_applies_the_reducer_to_one_cell() {
    let mut board = [Cell::<3>::default(); 3];
    board[0] = Cell::reduced(0);
    board[2] = Cell::reduced(1);
    let mut solver = SolverBuilder::new(line_of_3, differ).state(board).seed(1).build();
    assert!(solver.revise(0));
    assert!(solver.state()[0].is_reduced());
    assert!(solver.revise(1));
    assert!(solver.state()[1].is_reduced());
    assert_eq!(values(solver.state()), vec![Some(0), Some(2), Some(1)]);
}

#[test]
fn revise_reports_a_contradiction_and_keeps_the_cell() {
    let board = [Cell::<2>::reduced(0), Cell::default(), Cell::reduced(1)];
    let mut solver = SolverBuilder::new(line_of_3, differ).state(board).seed(1).build();
    assert!(!solver.revise(1));
    assert!(solver.state()[1].is_unknown());
    assert_eq!(solver.state()[1].state().members(), vec![0, 1]);
}

#[test]
fn revise_skips_a_cell_without_settled_neighbours() {
    let mut solver = SolverBuilder::<_, _, _, 3, 3>::new(line_of_3, differ).seed(1).build();
    assert!(solver.revise(1));
    assert!(solver.state()[1].is_unknown());
    assert_eq!(solver.state()[1].entropy(), 3);
}

#[test]
fn sweep_returns_the_cells_it_pinned() {
    let mut board = [Cell::<2>::default(); 5];
    board[0] = Cell::reduced(0);
    let mut solver = SolverBuilder::new(line_of_5, differ).state(board).seed(1).build();
    assert_eq!(solver.sweep(), Some(vec![1, 2, 3, 4]));
    assert_eq!(values(solver.state()), vec![Some(0), Some(1), Some(0), Some(1), Some(0)]);
    assert!(solver.state()[0].is_reduced());
    assert_eq!(solver.sweep(), Some(Vec::new()));
}

#[test]
fn sweep_stops_at_a_contradiction() {
    let board = [Cell::<2>::reduced(0), Cell::default(), Cell::reduced(1)];
    let mut solver = SolverBuilder::new(line_of_3, differ).state(board).seed(1).build();
    assert_eq!(solver.sweep(), None);
}

#[test]
fn settle_collapses_the_cells_named() {
    let board = [Cell::<3>::reduced(0), Cell::default(), Cell::reduced(1), Cell::reduced(2)];
    let mut solver = SolverBuilder::new(alone, allow_all).state(board).seed(1).build();
    solver.settle(&vec![0, 1, 3, 3]);
    let state = solver.state();
    assert!(state[0].is_collapsed());
    assert!(state[1].is_unknown());
    assert!(state[2].is_reduced());
    assert!(state[3].is_collapsed());
    assert_eq!(values(state), vec![Some(0), None, Some(1), Some(2)]);
}

#[test]
fn reduced_lists_the_cells_that_wait_to_be_collapsed() {
    let board = [
        Cell::<3>::reduced(0),
        Cell::default(),
        Cell::collapsed(1),
        Cell::reduced(2),
        Cell::reduced(1),
    ];
    let solver = SolverBuilder::new(alone, allow_all).state(board).seed(1).build();
    assert_eq!(solver.reduced(), vec![0, 3, 4]);
}

#[test]
fn least_entropy_cells_lists_every_tie() {
    let board = [
        Cell::<4>::default(),
        Cell::unknown(set_of(&[0, 1])),
        Cell::reduced(1),
        Cell::unknown(set_of(&[2, 3])),
        Cell::unknown(set_of(&[1, 2, 3])),
        Cell::collapsed(0),
    ];
    let mut solver = SolverBuilder::new(alone, allow_all).state(board).seed(1).build();
    assert_eq!(solver.least_entropy_cells(), vec![1, 3]);
    for _ in 0..20 {
        let picked = solver.lowest_entropy().unwrap();
        assert!(picked == 1 || picked == 3);
    }
}

#[test]
fn lowest_entropy_is_nothing_on_a_settled_board() {
    let board = [Cell::<4>::reduced(1), Cell::collapsed(0)];
    let mut solver = SolverBuilder::new(alone, allow_all).state(board).seed(1).build();
    assert_eq!(solver.least_entropy_cells(), Vec::<usize>::new());
    assert_eq!(solver.lowest_entropy(), None);
}

#[test]
fn lowest_entropy_picks_among_all_ties_in_time() {
    let mut solver = SolverBuilder::<_, _, _, 4, 3>::new(alone, allow_all).seed(5).build();
    let mut seen = [false; 3];
    for _ in 0..200 {
        seen[solver.lowest_entropy().unwrap()] = true;
    }
    assert_eq!(seen, [true, true, true]);
}

#[test]
fn commit_keeps_the_board_as_it_was() {
    let mut solver = SolverBuilder::<_, _, _, 3, 2>::new(alone, allow_all).seed(1).build();
    solver.commit(0, 1);
    assert!(solver.state()[0].is_reduced());
    assert_eq!(solver.state()[0].value(), Some(1));
    assert_eq!(solver.state()[0].state().members(), vec![1]);
    assert_eq!(solver.depth(), 1);

    assert_eq!(solver.backtrack(), Some(Vec::new()));
    assert_eq!(solver.depth(), 0);
    assert!(solver.state()[0].is_unknown());
    assert_eq!(solver.state()[0].state().members(), vec![0, 1, 2]);
    assert!(solver.state()[1].is_unknown());
}

#[test]
fn a_state_given_up_is_not_drawn_again() {
    for seed in 0..20 {
        let mut solver = SolverBuilder::<_, _, _, 3, 2>::new(alone, allow_all).seed(seed).build();
        solver.commit(0, 1);
        assert_eq!(solver.backtrack(), Some(Vec::new()));
        assert_eq!(solver.observe(0), Ok(vec![0]));
        let second = solver.state()[0].value().unwrap();
        assert!(second == 0 || second == 2);
        assert_eq!(solver.backtrack(), Some(Vec::new()));
        assert_eq!(solver.observe(0), Ok(vec![0]));
        let third = solver.state()[0].value().unwrap();
        assert_eq!(third, 2 - second);
        // The other cell is drawn from freely.
        assert_eq!(solver.observe(1), Ok(vec![1]));
        assert_eq!(solver.backtrack(), Some(vec![0]));
        assert_eq!(solver.backtrack(), Some(Vec::new()));
        // Every state of cell 0 has been given up: back once more, and out.
        assert_eq!(solver.depth(), 0);
        assert_eq!(solver.observe(0), Err(Unsatisfiable));
    }
}

#[test]
fn commit_leaves_the_other_state_to_be_drawn() {
    let board = [Cell::<3>::default(), Cell::unknown(set_of(&[0, 2]))];
    let mut solver = SolverBuilder::new(alone, allow_all).state(board).seed(1).build();
    solver.commit(1, 0);
    assert_eq!(solver.depth(), 1);
    assert_eq!(solver.backtrack(), Some(Vec::new()));
    assert!(solver.state()[1].is_unknown());
    assert_eq!(solver.state()[1].state().members(), vec![0, 2]);
    assert_eq!(solver.observe(1), Ok(vec![1]));
    assert_eq!(solver.state()[1].value(), Some(2));
}

#[test]
fn commit_keeps_the_board_when_no_other_state_is_left() {
    let board = [Cell::<3>::default(), Cell::unknown(set_of(&[2]))];
    let mut solver = SolverBuilder::new(alone, allow_all).state(board).seed(1).build();
    solver.commit(1, 2);
    assert_eq!(solver.depth(), 1);
    assert_eq!(solver.state()[1].value(), Some(2));
    assert_eq!(solver.backtrack(), Some(Vec::new()));
    assert_eq!(solver.state()[1].state().members(), vec![2]);
    assert_eq!(solver.observe(1), Err(Unsatisfiable));
}

#[test]
fn backtrack_without_a_kept_board_changes_nothing() {
    let board = [Cell::<3>::reduced(1), Cell::default()];
    let mut solver = SolverBuilder::new(alone, allow_all).state(board).seed(1).build();
    assert_eq!(solver.backtrack(), None);
    assert_eq!(values(solver.state()), vec![Some(1), None]);
    assert_eq!(solver.depth(), 0);
}

#[test]
fn observe_fixes_the_cell_and_returns_it() {
    let mut solver = SolverBuilder::<_, _, _, 4, 3>::new(alone, allow_all).seed(13).build();
    assert_eq!(solver.observe(1), Ok(vec![1]));
    assert!(solver.state()[1].is_reduced());
    let value = solver.state()[1].value().unwrap();
    assert!(value < 4);
    assert_eq!(solver.depth(), 1);
    assert_eq!(solver.backtrack(), Some(Vec::new()));
    assert!(solver.state()[1].is_unknown());
    assert_eq!(solver.state()[1].state().members(), vec![0, 1, 2, 3]);
    assert_eq!(solver.observe(1), Ok(vec![1]));
    assert_ne!(solver.state()[1].value(), Some(value));
}

#[test]
fn observe_leaves_a_settled_cell_alone() {
    let board = [Cell::<3>::collapsed(1), Cell::default()];
    let mut solver = SolverBuilder::new(alone, allow_all).state(board).seed(1).build();
    assert_eq!(solver.observe(0), Ok(vec![0]));
    assert!(solver.state()[0].is_collapsed());
    assert_eq!(solver.depth(), 0);
}

#[test]
fn observe_goes_back_when_nothing_can_be_drawn() {
    let board = [Cell::<3>::default(), Cell::unknown(set_of(&[1, 2]))];
    let mut solver = SolverBuilder::new(alone, allow_all)
        .state(board)
        .weights(only_zero)
        .seed(1)
        .build();
    assert_eq!(solver.observe(0), Ok(vec![0]));
    assert_eq!(solver.state()[0].value(), Some(0));
    assert_eq!(solver.depth(), 1);
    // No state of cell 1 has a weight: back to the board kept.
    assert_eq!(solver.observe(1), Ok(Vec::new()));
    assert_eq!(solver.depth(), 0);
    assert!(solver.state()[0].is_unknown());
    assert_eq!(solver.state()[0].state().members(), vec![0, 1, 2]);
    // And with no board kept, the failure is final.
    assert_eq!(solver.observe(1), Err(Unsatisfiable));
}

#[test]
fn solve_on_a_board_without_cells_succeeds() {
    let mut solver = SolverBuilder::<_, _, _, 3, 0>::new(alone, allow_all).seed(1).build();
    assert_eq!(solver.solve(), Ok(()));
    assert_eq!(solver.state().len(), 0);
    solver.pan(Pan::Down(1), 4);
    assert_eq!(solver.solve(), Ok(()));
    assert_eq!(solver.least_entropy_cells(), Vec::<usize>::new());
    assert_eq!(solver.reduced(), Vec::<usize>::new());
}

#[test]
fn solve_on_cells_of_one_state_fixes_each_to_it() {
    let mut solver = SolverBuilder::<_, _, _, 1, 4>::new(alone, allow_all).seed(1).build();
    assert_eq!(solver.solve(), Ok(()));
    assert_eq!(values(solver.state()), vec![Some(0); 4]);
    assert_eq!(solver.depth(), 4);
}

#[test]
fn solve_on_cells_without_states_fails() {
    let mut solver = SolverBuilder::<_, _, _, 0, 2>::new(alone, allow_all).seed(1).build();
    assert_eq!(solver.solve(), Err(Unsatisfiable));
}

#[test]
fn a_board_is_an_array_of_cells() {
    let states: CellState = set_of(&[0, 1]);
    let board: SolverState<2, 3> = [Cell::unknown(states); 3];
    let mut solver = SolverBuilder::new(line_of_3, differ).state(board).seed(2).build();
    assert_eq!(solver.solve(), Ok(()));
    let found = values(solver.state());
    assert_ne!(found[0], found[1]);
    assert_ne!(found[1], found[2]);
    assert_eq!(found[0], found[2]);
}

#[test]
fn cells_and_errors_can_be_printed() {
    let text = format!("{:?}", Cell::<3>::reduced(1));
    assert!(text.starts_with("Reduced("));
    assert_eq!(format!("{:?}", Unsatisfiable), "Unsatisfiable");
    assert_eq!(format!("{:?}", Pan::Left(2)), "Left(2)");
}

#[test]
fn builder_takes_the_weights_with_the_other_functions() {
    let mut solver = SolverBuilder::<_, _, _, 4, 6>::with_weights(alone, allow_all, only_two)
        .seed(8)
        .build();
    assert_eq!(solver.solve(), Ok(()));
    assert_eq!(values(solver.state()), vec![Some(2); 6]);
    let mut plain = SolverBuilder::<_, _, _, 3, 5>::with_weights(line_of_5, differ, uniform)
        .seed(8)
        .build();
    assert_eq!(plain.solve(), Ok(()));
    let found = values(plain.state());
    for i in 0..4 {
        assert_ne!(found[i], found[i + 1]);
    }
}

#[test]
fn solve_keeps_a_board_for_every_choice_that_stands() {
    let mut solver = SolverBuilder::<_, _, _, 4, 6>::new(alone, allow_all).seed(3).build();
    assert_eq!(solver.solve(), Ok(()));
    assert_eq!(solver.depth(), 6);
    // Each board kept is the board before a choice: one more cell unknown.
    for left in (0..6).rev() {
        assert!(solver.backtrack().is_some());
        let unknown = solver.state().iter().filter(|cell| cell.is_unknown()).count();
        assert_eq!(unknown, 6 - left);
        assert!(solver.state().iter().all(|cell| !cell.is_unknown() || cell.entropy() == 4));
    }
    assert_eq!(solver.backtrack(), None);
}
