use wave_function_collapse::candidates::{CandidateSet, CAPACITY};

fn set_of(members: &[usize]) -> CandidateSet {
    let mut set = CandidateSet::empty();
    for &m in members {
        set.insert(m);
    }
    set
}

#[test]
fn empty_set_has_no_members() {
    let set = CandidateSet::empty();
    assert!(set.is_empty());
    assert_eq!(set.len(), 0);
    assert_eq!(set.members(), Vec::<usize>::new());
}

#[test]
fn insert_adds_one_member() {
    let mut set = CandidateSet::empty();
    set.insert(5);
    assert_eq!(set.members(), vec![5]);
    set.insert(0);
    set.insert(63);
    set.insert(5);
    assert_eq!(set.members(), vec![0, 5, 63]);
    assert_eq!(set.len(), 3);
    assert!(!set.is_empty());
}

#[test]
fn remove_takes_one_member_out() {
    let mut set = set_of(&[1, 2, 3]);
    set.remove(2);
    assert_eq!(set.members(), vec![1, 3]);
    set.remove(40);
    assert_eq!(set.members(), vec![1, 3]);
}

#[test]
fn singleton_holds_its_index_only() {
    assert_eq!(CandidateSet::singleton(0).members(), vec![0]);
    assert_eq!(CandidateSet::singleton(17).members(), vec![17]);
    assert_eq!(CandidateSet::singleton(CAPACITY - 1).members(), vec![63]);
}

#[test]
fn full_holds_the_first_states() {
    assert_eq!(CandidateSet::full(0).members(), Vec::<usize>::new());
    assert_eq!(CandidateSet::full(3).members(), vec![0, 1, 2]);
    assert_eq!(CandidateSet::full(64).len(), 64);
}

#[test]
fn full_stops_at_the_capacity() {
    let set = CandidateSet::full(100);
    assert_eq!(set.len(), 64);
    assert_eq!(set.members(), (0..64).collect::<Vec<usize>>());
}

#[test]
fn union_holds_members_of_either() {
    let a = set_of(&[0, 2, 4]);
    let b = set_of(&[1, 2, 60]);
    assert_eq!(a.union(b).members(), vec![0, 1, 2, 4, 60]);
    assert_eq!(a.union(CandidateSet::empty()).members(), vec![0, 2, 4]);
}

#[test]
fn intersection_holds_members_of_both() {
    let a = set_of(&[0, 2, 4, 9]);
    let b = set_of(&[1, 2, 9, 60]);
    assert_eq!(a.intersection(b).members(), vec![2, 9]);
    assert!(a.intersection(CandidateSet::empty()).is_empty());
}

#[test]
fn difference_drops_the_members_of_the_other() {
    let a = set_of(&[0, 2, 4, 9]);
    let b = set_of(&[2, 9, 60]);
    assert_eq!(a.difference(b).members(), vec![0, 4]);
    assert_eq!(a.difference(CandidateSet::empty()).members(), vec![0, 2, 4, 9]);
    assert!(a.difference(a).is_empty());
    assert_eq!(CandidateSet::full(64).difference(a).len(), 60);
}

#[test]
fn members_below_cuts_at_the_bound() {
    let a = set_of(&[0, 2, 4, 9, 33]);
    assert_eq!(a.members_below(0), Vec::<usize>::new());
    assert_eq!(a.members_below(4), vec![0, 2]);
    assert_eq!(a.members_below(5), vec![0, 2, 4]);
    assert_eq!(a.members_below(1000), vec![0, 2, 4, 9, 33]);
}

#[test]
fn contains_tells_members_from_others() {
    let a = set_of(&[0, 7]);
    assert!(a.contains(0));
    assert!(a.contains(7));
    assert!(!a.contains(1));
    assert!(!a.contains(63));
    assert!(!a.contains(64));
    assert!(!a.contains(usize::MAX));
}

#[test]
fn equal_sets_compare_equal() {
    let a = set_of(&[3, 1, 2]);
    let b = set_of(&[1, 2, 3]);
    assert!(a == b);
    assert!(a != set_of(&[1, 2]));
    assert!(CandidateSet::empty() == CandidateSet::full(0));
    assert!(a.clone() == a);
}
