use rand::rngs::StdRng;
use rand::{thread_rng, SeedableRng};
use wave_function_collapse::candidates::CandidateSet;
use wave_function_collapse::cell::{Cell, NoCandidateError};

const STATES: usize = 3;
type State = CandidateSet;
type TestCell = Cell<STATES>;

fn uniform(_: &usize) -> usize {
    1
}

fn only_the_last(state: &usize) -> usize {
    if *state == STATES - 1 {
        7
    } else {
        0
    }
}

fn nothing(_: &usize) -> usize {
    0
}

fn states(members: &[usize]) -> State {
    let mut bits = State::empty();
    for &m in members {
        bits.insert(m);
    }
    bits
}

#[test]
/// Reduce a cell to no states
fn reduce_to_none() {
    let reduction = TestCell::default().state();
    let actual = TestCell::default().reduce(reduction);
    assert!(actual.is_none())
}

#[test]
/// Reduce a cell to many states
fn reduce_to_many() {
    let reduction = TestCell::reduced(STATES - 1).state();
    let actual = TestCell::default().reduce(reduction).unwrap();
    let expected = {
        let mut bits = State::empty();
        for i in 0..(STATES - 1) {
            bits.insert(i);
        }
        bits
    };
    assert!(
        actual.state() == expected,
        "Actual: {:?} Expected: {:?}",
        actual,
        expected
    );
    assert!(actual.is_unknown());
}

#[test]
/// Reduce a cell to one states
fn reduce_to_one() {
    let reduction = {
        let mut bits = State::empty();
        for i in 0..(STATES - 1) {
            bits.insert(i);
        }
        bits
    };
    let actual = TestCell::default().reduce(reduction).unwrap();
    let expected = TestCell::reduced(STATES - 1).state();
    assert!(
        actual.state() == expected,
        "Actual: {:?}, Expected: {:?}",
        actual,
        expected
    );
    assert!(actual.is_reduced());
}

#[test]
fn observe_empty_state() {
    let actual = TestCell::Unknown(State::empty())
        .observe(&uniform, &mut StdRng::from_rng(thread_rng()).unwrap())
        .err();
    let expected = Result::<TestCell, NoCandidateError>::Err(NoCandidateError).err();
    assert!(
        actual == expected,
        "Actual: {:?}, Expected: {:?}",
        actual,
        expected
    );
}

#[test]
fn observe_random_state() {
    let actual = TestCell::default()
        .observe(&uniform, &mut StdRng::from_rng(thread_rng()).unwrap())
        .unwrap()
        .value()
        .unwrap();
    let expected = (0..STATES).map(|i| i).collect::<Vec<usize>>();
    assert!(
        expected.contains(&actual),
        "Actual: {:?}, Expected: {:?}",
        actual,
        expected
    );
}

#[test]
fn default_cell_is_unknown_over_every_state() {
    let cell = TestCell::default();
    assert!(cell.is_unknown());
    assert!(!cell.is_reduced());
    assert!(!cell.is_collapsed());
    assert_eq!(cell.state().members(), vec![0, 1, 2]);
    assert_eq!(cell.value(), None);
    assert_eq!(cell.entropy(), 3);
}

#[test]
fn default_cell_of_many_states_stops_at_the_capacity() {
    let cell = Cell::<200>::default();
    assert_eq!(cell.entropy(), 64);
    assert_eq!(cell.state().len(), 64);
}

#[test]
fn reduced_cell_holds_its_state() {
    let cell = TestCell::reduced(1);
    assert!(cell.is_reduced());
    assert!(!cell.is_unknown());
    assert!(!cell.is_collapsed());
    assert_eq!(cell.value(), Some(1));
    assert_eq!(cell.state().members(), vec![1]);
    assert_eq!(cell.entropy(), 1);
}

#[test]
fn collapsed_cell_holds_its_state() {
    let cell = TestCell::collapsed(2);
    assert!(cell.is_collapsed());
    assert!(!cell.is_unknown());
    assert!(!cell.is_reduced());
    assert_eq!(cell.value(), Some(2));
    assert_eq!(cell.state().members(), vec![2]);
    assert_eq!(cell.entropy(), 0);
}

#[test]
fn unknown_cell_keeps_the_set_it_was_given() {
    let cell = TestCell::unknown(states(&[0, 2]));
    assert!(cell.is_unknown());
    assert!(cell.state() == states(&[0, 2]));
    assert_eq!(cell.entropy(), 2);
    assert_eq!(cell.value(), None);
}

#[test]
fn entropy_counts_only_states_below_the_number_of_states() {
    let cell = TestCell::unknown(states(&[0, 1, 2, 3, 40, 63]));
    assert_eq!(cell.entropy(), 3);
    let high = TestCell::unknown(states(&[3, 4, 5]));
    assert_eq!(high.entropy(), 0);
}

#[test]
fn entropy_is_within_the_number_of_states_at_every_stage() {
    let cells = [
        TestCell::default(),
        TestCell::unknown(states(&[0, 1])),
        TestCell::reduced(0),
        TestCell::collapsed(1),
        TestCell::default().reduce(states(&[1])).unwrap(),
    ];
    let expected = [3, 2, 1, 0, 2];
    for (cell, want) in cells.iter().zip(expected) {
        assert_eq!(cell.entropy(), want);
        assert!(cell.entropy() <= STATES);
    }
}

#[test]
fn collapse_promotes_a_reduced_cell_only() {
    let collapsed = TestCell::reduced(1).collapse();
    assert!(collapsed.is_collapsed());
    assert_eq!(collapsed.value(), Some(1));
    assert_eq!(collapsed.state().members(), vec![1]);
    assert_eq!(collapsed.entropy(), 0);

    let unknown = TestCell::default().collapse();
    assert!(unknown.is_unknown());
    assert_eq!(unknown.entropy(), 3);

    let again = TestCell::collapsed(2).collapse();
    assert!(again.is_collapsed());
    assert_eq!(again.value(), Some(2));
}

#[test]
fn reduce_removes_exactly_the_forbidden_states() {
    let cell = Cell::<6>::default();
    let next = cell.reduce(states(&[1, 4])).unwrap();
    assert!(next.is_unknown());
    assert_eq!(next.state().members(), vec![0, 2, 3, 5]);
    assert_eq!(next.entropy(), 4);
}

#[test]
fn reduce_pins_the_last_candidate() {
    let next = TestCell::default().reduce(states(&[0, 2])).unwrap();
    assert!(next.is_reduced());
    assert_eq!(next.value(), Some(1));
    assert_eq!(next.state().members(), vec![1]);
    assert_eq!(next.entropy(), 1);
}

#[test]
fn reduce_with_nothing_forbidden_changes_nothing() {
    let cells = [
        TestCell::default(),
        TestCell::unknown(states(&[0, 2])),
        TestCell::reduced(1),
        TestCell::collapsed(0),
    ];
    for cell in cells {
        let next = cell.reduce(State::empty()).unwrap();
        assert!(next.state() == cell.state());
        assert_eq!(next.value(), cell.value());
        assert_eq!(next.is_unknown(), cell.is_unknown());
        assert_eq!(next.is_reduced(), cell.is_reduced());
        assert_eq!(next.is_collapsed(), cell.is_collapsed());
        assert_eq!(next.entropy(), cell.entropy());
    }
}

#[test]
fn reduce_ignores_forbidden_states_that_are_no_candidates() {
    let cell = TestCell::unknown(states(&[0, 1]));
    let next = cell.reduce(states(&[2, 50])).unwrap();
    assert!(next.is_unknown());
    assert_eq!(next.state().members(), vec![0, 1]);
}

#[test]
fn reduce_leaves_settled_cells_alone() {
    let reduced = TestCell::reduced(1).reduce(states(&[0, 1, 2])).unwrap();
    assert!(reduced.is_reduced());
    assert_eq!(reduced.value(), Some(1));
    assert_eq!(reduced.state().members(), vec![1]);

    let collapsed = TestCell::collapsed(2).reduce(states(&[2])).unwrap();
    assert!(collapsed.is_collapsed());
    assert_eq!(collapsed.value(), Some(2));
}

#[test]
fn successive_reductions_only_shrink_the_domain() {
    let start = Cell::<5>::default();
    let first = start.reduce(states(&[4])).unwrap();
    assert!(first.is_unknown());
    assert_eq!(first.state().members(), vec![0, 1, 2, 3]);
    let second = first.reduce(states(&[0, 4])).unwrap();
    assert!(second.is_unknown());
    assert_eq!(second.state().members(), vec![1, 2, 3]);
    let third = second.reduce(states(&[1, 3])).unwrap();
    assert!(third.is_reduced());
    assert_eq!(third.value(), Some(2));
    let fourth = third.reduce(states(&[2])).unwrap();
    assert!(fourth.is_reduced());
    assert_eq!(fourth.value(), Some(2));
    assert!(second.reduce(states(&[1, 2, 3])).is_none());
}

#[test]
fn reduce_counts_only_states_below_the_number_of_states() {
    let cell = TestCell::unknown(states(&[1, 2, 10]));
    let next = cell.reduce(states(&[2])).unwrap();
    assert!(next.is_reduced());
    assert_eq!(next.value(), Some(1));
    assert!(cell.reduce(states(&[1, 2])).is_none());
}

#[test]
fn observe_picks_a_candidate() {
    let mut rng = StdRng::seed_from_u64(11);
    for _ in 0..50 {
        let cell = Cell::<8>::unknown(states(&[2, 5, 6]));
        let seen = cell.observe(&uniform, &mut rng).unwrap();
        assert!(seen.is_reduced());
        let value = seen.value().unwrap();
        assert!(value == 2 || value == 5 || value == 6);
        assert_eq!(seen.state().members(), vec![value]);
    }
}

#[test]
fn observe_never_picks_a_state_of_weight_zero() {
    let mut rng = StdRng::seed_from_u64(3);
    for _ in 0..50 {
        let seen = TestCell::default().observe(&only_the_last, &mut rng).unwrap();
        assert_eq!(seen.value(), Some(STATES - 1));
    }
}

#[test]
fn observe_fails_when_every_weight_is_zero() {
    let mut rng = StdRng::seed_from_u64(3);
    let seen = TestCell::default().observe(&nothing, &mut rng);
    assert_eq!(seen.err(), Some(NoCandidateError));
}

#[test]
fn observe_leaves_settled_cells_alone() {
    let mut rng = StdRng::seed_from_u64(3);
    let reduced = TestCell::reduced(1).observe(&uniform, &mut rng).unwrap();
    assert!(reduced.is_reduced());
    assert_eq!(reduced.value(), Some(1));
    let collapsed = TestCell::collapsed(0).observe(&nothing, &mut rng).unwrap();
    assert!(collapsed.is_collapsed());
    assert_eq!(collapsed.value(), Some(0));
}

#[test]
fn observe_ignores_candidates_that_are_no_states() {
    let mut rng = StdRng::seed_from_u64(9);
    let cell = TestCell::unknown(states(&[1, 30, 31, 32, 33]));
    for _ in 0..20 {
        assert_eq!(cell.observe(&uniform, &mut rng).unwrap().value(), Some(1));
    }
    let none = TestCell::unknown(states(&[30, 31]));
    assert_eq!(none.observe(&uniform, &mut rng).err(), Some(NoCandidateError));
}

#[test]
fn draw_returns_a_candidate_of_any_cell() {
    let mut rng = StdRng::seed_from_u64(5);
    assert_eq!(TestCell::reduced(2).draw(&uniform, &mut rng), Ok(2));
    assert_eq!(TestCell::unknown(State::empty()).draw(&uniform, &mut rng), Err(NoCandidateError));
    let drawn = TestCell::default().draw(&uniform, &mut rng).unwrap();
    assert!(drawn < STATES);
}
