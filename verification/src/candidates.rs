//! Sets of state indices, kept in one `bitvec` bit array.

use bitvec::array::BitArray;
use bitvec::order::Lsb0;
use vstd::prelude::*;
use vstd::set_lib::*;

verus! {

/// The number of distinct state indices a candidate set can hold.
pub const CAPACITY: usize = 64;

/// A set of state indices below [`CAPACITY`].
///
/// The bits live in a `bitvec` array of one 64-bit word, least significant
/// bit first; bit `i` is set when state `i` is a member. Verus does not look
/// inside: all it knows of a value is [`bit_array_ones`].
#[verifier::external_body]
#[derive(Debug)]
pub struct CandidateSet {
    bits: BitArray<u64, Lsb0>,
}

/// The positions of the bits that are set in the array of `set`.
pub uninterp spec fn bit_array_ones(set: CandidateSet) -> Set<int>;

impl View for CandidateSet {
    type V = Set<int>;

    /// The members: the positions below [`CAPACITY`] whose bit is set.
    open spec fn view(&self) -> Set<int> {
        bit_array_ones(*self).intersect(set_int_range(0, CAPACITY as int))
    }
}

/// `list` names every member of `set` exactly once, smallest first.
pub open spec fn lists(list: Seq<usize>, set: Set<int>) -> bool {
    &&& forall|j: int, k: int|
        #![trigger list[j], list[k]]
        0 <= j < k < list.len() ==> list[j] < list[k]
    &&& forall|k: int| 0 <= k < list.len() ==> set.contains(#[trigger] list[k] as int)
    &&& forall|i: int|
        set.contains(i) ==> exists|k: int| 0 <= k < list.len() && #[trigger] list[k] == i
}

/// A set that has a listing is finite and as large as the listing is long.
pub proof fn lemma_listed_len(list: Seq<usize>, set: Set<int>)
    requires
        lists(list, set),
    ensures
        set.finite(),
        set.len() == list.len(),
{
    let ints = list.map_values(|x: usize| x as int);
    assert(ints.no_duplicates());
    assert forall|i: int| set.contains(i) implies ints.to_set().contains(i) by {
        let k = choose|k: int| 0 <= k < list.len() && #[trigger] list[k] == i;
        assert(ints[k] == i);
    }
    assert(ints.to_set() =~= set);
    ints.unique_seq_to_set();
    vstd::seq_lib::seq_to_set_is_finite(ints);
}

/// A listing grows by an index that lies above every member.
pub proof fn lemma_lists_push(list: Seq<usize>, set: Set<int>, next: usize)
    requires
        lists(list, set),
        forall|i: int| set.contains(i) ==> i < next,
    ensures
        lists(list.push(next), set.insert(next as int)),
{
    let longer = list.push(next);
    assert forall|i: int| set.insert(next as int).contains(i) implies exists|k: int|
        0 <= k < longer.len() && #[trigger] longer[k] == i by {
        if i == next {
            assert(longer[list.len() as int] == i);
        } else {
            let k = choose|k: int| 0 <= k < list.len() && #[trigger] list[k] == i;
            assert(longer[k] == i);
        }
    }
    assert forall|j: int, k: int| 0 <= j < k < longer.len() implies longer[j] < longer[k] by {
        assert(set.contains(list[j] as int));
    }
}

/// `BitArray::ZERO`: an array in which no bit is set.
#[verifier::external_body]
fn zero() -> (r: CandidateSet)
    ensures
        bit_array_ones(r) == Set::<int>::empty(),
{
    CandidateSet { bits: BitArray::ZERO }
}

/// `BitSlice::set`: writes `value` into the bit at `index` and leaves every
/// other bit as it was. The call panics for an index outside the array,
/// which the precondition rules out.
#[verifier::external_body]
fn set_bit(set: &mut CandidateSet, index: usize, value: bool)
    requires
        index < CAPACITY,
    ensures
        bit_array_ones(*final(set)) == if value {
            bit_array_ones(*old(set)).insert(index as int)
        } else {
            bit_array_ones(*old(set)).remove(index as int)
        },
{
    set.bits.set(index, value);
}

/// `!` on a `BitArray`: flips each of the 64 bits.
#[verifier::external_body]
fn not(a: CandidateSet) -> (r: CandidateSet)
    ensures
        bit_array_ones(r) == set_int_range(0, CAPACITY as int).difference(bit_array_ones(a)),
{
    CandidateSet { bits: !a.bits }
}

/// `&` on two `BitArray`s: a bit is set in the result when it is set in both.
#[verifier::external_body]
fn and(a: CandidateSet, b: CandidateSet) -> (r: CandidateSet)
    ensures
        bit_array_ones(r) == bit_array_ones(a).intersect(bit_array_ones(b)),
{
    CandidateSet { bits: a.bits & b.bits }
}

/// `|` on two `BitArray`s: a bit is set in the result when it is set in
/// either.
#[verifier::external_body]
fn or(a: CandidateSet, b: CandidateSet) -> (r: CandidateSet)
    ensures
        bit_array_ones(r) == bit_array_ones(a).union(bit_array_ones(b)),
{
    CandidateSet { bits: a.bits | b.bits }
}

/// `BitSlice::iter_ones`, collected: the positions of the set bits, each
/// once, in rising order. Every position lies inside the array.
#[verifier::external_body]
fn iter_ones(set: &CandidateSet) -> (r: Vec<usize>)
    ensures
        lists(r@, bit_array_ones(*set)),
        forall|k: int| 0 <= k < r@.len() ==> r@[k] < CAPACITY,
{
    set.bits.iter_ones().collect()
}

/// `==` on two `BitArray`s: true when the same of the 64 bits are set in
/// both.
#[verifier::external_body]
fn same_bits(a: &CandidateSet, b: &CandidateSet) -> (r: bool)
    ensures
        r == (bit_array_ones(*a).intersect(set_int_range(0, CAPACITY as int)) == bit_array_ones(
            *b,
        ).intersect(set_int_range(0, CAPACITY as int))),
{
    a.bits == b.bits
}

impl Clone for CandidateSet {
    fn clone(&self) -> (r: Self)
        ensures
            r == *self,
    {
        *self
    }
}

impl Copy for CandidateSet {

}

impl PartialEq for CandidateSet {
    fn eq(&self, other: &Self) -> (r: bool) {
        same_bits(self, other)
    }
}

impl Eq for CandidateSet {

}

impl vstd::std_specs::cmp::PartialEqSpecImpl for CandidateSet {
    open spec fn obeys_eq_spec() -> bool {
        true
    }

    open spec fn eq_spec(&self, other: &Self) -> bool {
        self@ == other@
    }
}

impl CandidateSet {
    /// The members are finite in number and lie below the capacity.
    pub proof fn lemma_bounded(self)
        ensures
            self@.finite(),
            self@.len() <= CAPACITY,
            forall|i: int| self@.contains(i) ==> 0 <= i < CAPACITY,
    {
        lemma_int_range(0, CAPACITY as int);
        lemma_len_subset(self@, set_int_range(0, CAPACITY as int));
    }

    /// The set without members.
    pub fn empty() -> (r: Self)
        ensures
            r@ == Set::<int>::empty(),
    {
        let r = zero();
        assert(r@ =~= Set::<int>::empty());
        r
    }

    /// Adds `index` to the set.
    pub fn insert(&mut self, index: usize)
        requires
            index < CAPACITY,
        ensures
            final(self)@ == old(self)@.insert(index as int),
    {
        set_bit(self, index, true);
        assert(self@ =~= old(self)@.insert(index as int));
    }

    /// Takes `index` out of the set.
    pub fn remove(&mut self, index: usize)
        requires
            index < CAPACITY,
        ensures
            final(self)@ == old(self)@.remove(index as int),
    {
        set_bit(self, index, false);
        assert(self@ =~= old(self)@.remove(index as int));
    }

    /// The set whose one member is `index`.
    pub fn singleton(index: usize) -> (r: Self)
        requires
            index < CAPACITY,
        ensures
            r@ == set![index as int],
    {
        let mut r = Self::empty();
        r.insert(index);
        assert(r@ =~= set![index as int]);
        r
    }

    /// The set of the first `count` state indices, as far as the capacity
    /// reaches.
    pub fn full(count: usize) -> (r: Self)
        ensures
            r@ == set_int_range(0, if count <= CAPACITY { count as int } else { CAPACITY as int }),
    {
        let limit: usize = if count <= CAPACITY { count } else { CAPACITY };
        let mut r = Self::empty();
        let mut i: usize = 0;
        while i < limit
            invariant
                i <= limit <= CAPACITY,
                r@ =~= set_int_range(0, i as int),
            decreases limit - i,
        {
            r.insert(i);
            i += 1;
        }
        r
    }

    /// The members of either set.
    pub fn union(self, other: Self) -> (r: Self)
        ensures
            r@ == self@.union(other@),
    {
        let r = or(self, other);
        assert(r@ =~= self@.union(other@));
        r
    }

    /// The members of both sets.
    pub fn intersection(self, other: Self) -> (r: Self)
        ensures
            r@ == self@.intersect(other@),
    {
        let r = and(self, other);
        assert(r@ =~= self@.intersect(other@));
        r
    }

    /// The members of `self` that `other` lacks.
    pub fn difference(self, other: Self) -> (r: Self)
        ensures
            r@ == self@.difference(other@),
    {
        let r = and(self, not(other));
        assert(r@ =~= self@.difference(other@));
        r
    }

    /// The members, smallest first.
    pub fn members(&self) -> (r: Vec<usize>)
        ensures
            lists(r@, self@),
    {
        let r = iter_ones(self);
        assert(self@ =~= bit_array_ones(*self)) by {
            assert forall|i: int| bit_array_ones(*self).contains(i) implies 0 <= i < CAPACITY by {
                let k = choose|k: int| 0 <= k < r@.len() && #[trigger] r@[k] == i;
            }
        }
        r
    }

    /// The members below `bound`, smallest first.
    pub fn members_below(&self, bound: usize) -> (r: Vec<usize>)
        ensures
            lists(r@, self@.intersect(set_int_range(0, bound as int))),
    {
        let all = self.members();
        let ghost wanted = self@.intersect(set_int_range(0, bound as int));
        let mut r: Vec<usize> = Vec::new();
        let mut k: usize = 0;
        while k < all.len()
            invariant
                k <= all.len(),
                lists(all@, self@),
                wanted == self@.intersect(set_int_range(0, bound as int)),
                forall|a: int, b: int|
                    #![trigger r@[a], r@[b]]
                    0 <= a < b < r@.len() ==> r@[a] < r@[b],
                forall|a: int| 0 <= a < r@.len() ==> wanted.contains(#[trigger] r@[a] as int),
                forall|a: int| 0 <= a < r@.len() && k < all.len() ==> #[trigger] r@[a] < all@[k as int],
                forall|j: int|
                    0 <= j < k && all@[j] < bound ==> exists|a: int|
                        0 <= a < r@.len() && #[trigger] r@[a] == all@[j],
            decreases all.len() - k,
        {
            let m: usize = all[k];
            if m < bound {
                let ghost before = r@;
                r.push(m);
                assert forall|j: int| 0 <= j < k + 1 && all@[j] < bound implies exists|a: int|
                    0 <= a < r@.len() && #[trigger] r@[a] == all@[j] by {
                    if j < k {
                        let a = choose|a: int| 0 <= a < before.len() && #[trigger] before[a] == all@[j];
                        assert(r@[a] == all@[j]);
                    } else {
                        assert(r@[r@.len() - 1] == all@[j]);
                    }
                }
            }
            k += 1;
        }
        proof {
            assert forall|i: int| wanted.contains(i) implies exists|a: int|
                0 <= a < r@.len() && #[trigger] r@[a] == i by {
                let j = choose|j: int| 0 <= j < all@.len() && #[trigger] all@[j] == i;
                assert(all@[j] < bound);
            }
        }
        r
    }

    /// The number of members.
    pub fn len(&self) -> (r: usize)
        ensures
            r == self@.len(),
            r <= CAPACITY,
    {
        let all = self.members();
        proof {
            lemma_listed_len(all@, self@);
            self.lemma_bounded();
        }
        all.len()
    }

    /// Whether the set has no member.
    pub fn is_empty(&self) -> (r: bool)
        ensures
            r == (self@ == Set::<int>::empty()),
    {
        let all = self.members();
        proof {
            lemma_listed_len(all@, self@);
            if all@.len() == 0 {
                assert(self@ =~= Set::<int>::empty());
            } else {
                assert(self@.contains(all@[0] as int));
            }
        }
        all.len() == 0
    }

    /// Whether `index` is a member.
    pub fn contains(&self, index: usize) -> (r: bool)
        ensures
            r == self@.contains(index as int),
    {
        if index >= CAPACITY {
            return false;
        }
        let r = !self.intersection(Self::singleton(index)).is_empty();
        proof {
            let both = self@.intersect(set![index as int]);
            if self@.contains(index as int) {
                assert(both.contains(index as int));
            } else {
                assert(both =~= Set::<int>::empty());
            }
        }
        r
    }
}

} // verus!
