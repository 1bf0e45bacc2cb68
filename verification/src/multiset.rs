//! A multiset over the element indices `0 .. E`, held as one count per index.
use crate::count::{Count, ElemScalar};
use crate::seq_counts::{
    keeps_picked, lemma_slots_take_step, lemma_take_all, lemma_total_take_le,
    lemma_total_take_step, max_int, min_int, picked_slot, seq_nonzero, seq_total, seq_zero,
};
use rand::rngs::StdRng;
use vstd::prelude::*;
use vstd::std_specs::cmp::PartialEqSpec;
use vstd::std_specs::iter::IteratorSpec;

verus! {

/// A multiset over the indices `0 .. E`: slot `i` holds how often index `i`
/// occurs.
#[derive(Debug)]
pub struct SlotMultiset<N: ElemScalar, const E: usize> {
    data: Vec<N>,
}

impl<N: ElemScalar, const E: usize> SlotMultiset<N, E> {
    /// The storage always has exactly `E` slots.
    #[verifier::type_invariant]
    spec fn inv(self) -> bool {
        self.data.len() == E
    }
}

/// The mutable slot iterator that `SlotMultiset::iter_mut` hands out.
#[verifier::external_type_specification]
#[verifier::external_body]
#[verifier::reject_recursive_types(T)]
pub struct ExIterMut<'a, T: 'a>(std::slice::IterMut<'a, T>);

/// `<[T]>::iter_mut` on the slots of `v`: an iterator that yields a mutable
/// reference to each entry, from first to last. Through it entries can be
/// replaced but none added or removed, so `v` keeps its length; which values
/// are written back through the references is not stated.
#[verifier::external_body]
fn vec_iter_mut<'a, T>(v: &'a mut Vec<T>) -> (r: std::slice::IterMut<'a, T>)
    ensures
        final(v)@.len() == old(v)@.len(),
        r.remaining().len() == old(v)@.len(),
        forall|i: int| 0 <= i < old(v)@.len() ==> *r.remaining()[i] == old(v)@[i],
    no_unwind
{
    v.iter_mut()
}

impl<N: ElemScalar, const E: usize> Clone for SlotMultiset<N, E> {
    /// A multiset with the same slots.
    fn clone(&self) -> (r: Self)
        ensures
            r@ == self@,
    {
        proof {
            use_type_invariant(self);
        }
        let mut v: Vec<N> = Vec::new();
        let mut i: usize = 0;
        while i < E
            invariant
                i <= E,
                self.data@.len() == E,
                v@ == self.data@.take(i as int),
            decreases E - i,
        {
            v.push(self.data[i].inlined_clone());
            i = i + 1;
            proof {
                assert(v@ =~= self.data@.take(i as int));
            }
        }
        let r = SlotMultiset { data: v };
        assert(r@ =~= self@);
        r
    }
}

impl<N: ElemScalar, const E: usize> View for SlotMultiset<N, E> {
    type V = Seq<N>;

    /// The `E` slots, in index order.
    closed spec fn view(&self) -> Seq<N> {
        Seq::new(E as nat, |i: int| self.data@[i])
    }
}

/// A multiset always has `E` slots.
pub broadcast proof fn lemma_view_len<N: ElemScalar, const E: usize>(m: SlotMultiset<N, E>)
    ensures
        #[trigger] m@.len() == E,
{
}

impl<N: Count, const E: usize> SlotMultiset<N, E> {
    /// The count held in slot `i`.
    pub open spec fn count(self, i: int) -> int {
        self@[i].count_value()
    }

    /// The sum of all counts.
    pub open spec fn total(self) -> int {
        seq_total(self@)
    }

    /// Every count of `self` is at most the count of `other` at that index.
    pub open spec fn counts_le(self, other: Self) -> bool {
        forall|i: int| 0 <= i < E ==> #[trigger] self.count(i) <= other.count(i)
    }

    /// Some count of `self` is below the count of `other` at that index.
    pub open spec fn some_count_lt(self, other: Self) -> bool {
        exists|i: int| 0 <= i < E && #[trigger] self.count(i) < other.count(i)
    }

    /// Every count is zero.
    pub open spec fn all_zero(self) -> bool {
        forall|i: int| 0 <= i < E ==> #[trigger] self.count(i) == 0
    }
}

impl<N: ElemScalar, const E: usize> SlotMultiset<N, E> {
    /// Builds the multiset whose slots are the entries of `data`.
    pub fn from_array(data: [N; E]) -> (r: Self)
        ensures
            r@ == data@,
    {
        let mut v: Vec<N> = Vec::new();
        let mut i: usize = 0;
        while i < E
            invariant
                i <= E,
                data@.len() == E,
                v@ == data@.take(i as int),
            decreases E - i,
        {
            v.push(data[i]);
            i = i + 1;
            proof {
                assert(v@ =~= data@.take(i as int));
            }
        }
        let r = SlotMultiset { data: v };
        assert(r@ =~= data@);
        r
    }

    /// A multiset whose every slot holds `elem`.
    pub fn repeat(elem: N) -> (r: Self)
        ensures
            forall|i: int| 0 <= i < E ==> r@[i] == elem,
    {
        let mut v: Vec<N> = Vec::new();
        let mut i: usize = 0;
        while i < E
            invariant
                i <= E,
                v@.len() == i,
                forall|j: int| 0 <= j < i ==> v@[j] == elem,
            decreases E - i,
        {
            v.push(elem.inlined_clone());
            i = i + 1;
        }
        SlotMultiset { data: v }
    }

    /// The multiset whose slots are the entries of `slice`; the slice must
    /// have exactly `E` entries.
    pub fn from_slice(slice: &[N]) -> (r: Self)
        requires
            slice@.len() == E,
        ensures
            r@ == slice@,
    {
        let mut v: Vec<N> = Vec::new();
        let mut i: usize = 0;
        while i < E
            invariant
                i <= E,
                slice@.len() == E,
                v@ == slice@.take(i as int),
            decreases E - i,
        {
            v.push(slice[i].inlined_clone());
            i = i + 1;
            proof {
                assert(v@ =~= slice@.take(i as int));
            }
        }
        let r = SlotMultiset { data: v };
        assert(r@ =~= slice@);
        r
    }

    /// An iterator over the slots, in index order.
    pub fn iter(&self) -> (r: std::slice::Iter<'_, N>)
        ensures
            r.remaining() == self@.as_ref(),
    {
        proof {
            use_type_invariant(self);
        }
        let r = self.data.as_slice().iter();
        assert(self.data@ =~= self@);
        r
    }

    /// An iterator of mutable references to the slots, in index order: it
    /// yields `E` references, the `i`-th to the value held in slot `i`.
    pub fn iter_mut(&mut self) -> (r: std::slice::IterMut<'_, N>)
        ensures
            r.remaining().len() == E,
            forall|i: int| 0 <= i < E ==> *r.remaining()[i] == old(self)@[i],
    {
        proof {
            use_type_invariant(&*self);
        }
        vec_iter_mut(&mut self.data)
    }

    /// Applies `f` to each slot, in index order.
    pub fn map<N2: ElemScalar, F: FnMut(N) -> N2>(&self, f: F) -> (r: SlotMultiset<N2, E>)
        requires
            forall|i: int| 0 <= i < E ==> call_requires(f, (#[trigger] self@[i],)),
        ensures
            forall|i: int| 0 <= i < E ==> call_ensures(f, (#[trigger] self@[i],), r@[i]),
    {
        proof {
            use_type_invariant(self);
        }
        let mut f = f;
        let ghost f0 = f;
        let mut v: Vec<N2> = Vec::new();
        let mut i: usize = 0;
        while i < E
            invariant
                i <= E,
                f == f0,
                self.data@.len() == E,
                forall|j: int| 0 <= j < E ==> call_requires(f0, (#[trigger] self@[j],)),
                v@.len() == i,
                forall|j: int| 0 <= j < i ==> call_ensures(f0, (#[trigger] self@[j],), v@[j]),
            decreases E - i,
        {
            let e = self.data[i].inlined_clone();
            assert(e == self@[i as int]);
            let y = f(e);
            v.push(y);
            i = i + 1;
        }
        let r = SlotMultiset { data: v };
        assert(forall|j: int| 0 <= j < E ==> r@[j] == v@[j]);
        r
    }

    /// Folds `f` over the slots in index order, starting from `init`.
    ///
    /// The result is the last of a chain of accumulators that starts at
    /// `init`, in which each next one is an outcome of `f` on the one before
    /// and the next slot.
    pub fn fold<Acc, F: FnMut(Acc, N) -> Acc>(&self, init: Acc, f: F) -> (r: Acc)
        requires
            forall|acc: Acc, i: int| 0 <= i < E ==> #[trigger] call_requires(f, (acc, self@[i])),
        ensures
            exists|accs: Seq<Acc>|
                {
                    &&& accs.len() == E + 1
                    &&& accs[0] == init
                    &&& accs[E as int] == r
                    &&& forall|i: int|
                        0 <= i < E ==> call_ensures(
                            f,
                            (accs[i], #[trigger] self@[i]),
                            accs[i + 1],
                        )
                },
    {
        proof {
            use_type_invariant(self);
        }
        let mut f = f;
        let ghost f0 = f;
        let mut res = init;
        let ghost mut accs: Seq<Acc> = seq![init];
        let mut i: usize = 0;
        while i < E
            invariant
                i <= E,
                f == f0,
                self.data@.len() == E,
                forall|acc: Acc, j: int|
                    0 <= j < E ==> #[trigger] call_requires(f0, (acc, self@[j])),
                accs.len() == i + 1,
                accs[0] == init,
                accs[i as int] == res,
                forall|j: int|
                    0 <= j < i ==> call_ensures(f0, (accs[j], #[trigger] self@[j]), accs[j + 1]),
            decreases E - i,
        {
            let e = self.data[i].inlined_clone();
            assert(e == self@[i as int]);
            let next = f(res, e);
            proof {
                accs = accs.push(next);
            }
            res = next;
            i = i + 1;
        }
        res
    }

    /// Applies `f` to each pair of slots of `self` and `other` at the same
    /// index.
    pub fn zip_map<N2: ElemScalar, N3: ElemScalar, F: FnMut(N, N2) -> N3>(
        &self,
        other: &SlotMultiset<N2, E>,
        f: F,
    ) -> (r: SlotMultiset<N3, E>)
        requires
            forall|i: int|
                0 <= i < E ==> call_requires(f, (#[trigger] self@[i], other@[i])),
        ensures
            forall|i: int|
                0 <= i < E ==> call_ensures(f, (#[trigger] self@[i], other@[i]), r@[i]),
    {
        proof {
            use_type_invariant(self);
            use_type_invariant(other);
        }
        let mut f = f;
        let ghost f0 = f;
        let mut v: Vec<N3> = Vec::new();
        let mut i: usize = 0;
        while i < E
            invariant
                i <= E,
                f == f0,
                self.data@.len() == E,
                other.data@.len() == E,
                forall|j: int| 0 <= j < E ==> call_requires(f0, (#[trigger] self@[j], other@[j])),
                v@.len() == i,
                forall|j: int|
                    0 <= j < i ==> call_ensures(f0, (#[trigger] self@[j], other@[j]), v@[j]),
            decreases E - i,
        {
            let e1 = self.data[i].inlined_clone();
            let e2 = other.data[i].inlined_clone();
            assert(e1 == self@[i as int] && e2 == other@[i as int]);
            let y = f(e1, e2);
            v.push(y);
            i = i + 1;
        }
        let r = SlotMultiset { data: v };
        assert(forall|j: int| 0 <= j < E ==> r@[j] == v@[j]);
        r
    }

    /// The multiset whose slots are the items of `items`, or `None` unless
    /// there are exactly `E` items.
    pub fn from_exact_iter(items: Vec<N>) -> (r: Option<Self>)
        ensures
            r is Some <==> items@.len() == E,
            r matches Some(m) ==> m@ == items@,
    {
        if items.len() == E {
            let r = SlotMultiset { data: items };
            assert(r@ =~= items@);
            Some(r)
        } else {
            None
        }
    }
}

impl<N: Count, const E: usize> SlotMultiset<N, E> {
    /// The multiset in which every index occurs zero times.
    pub fn empty() -> (r: Self)
        ensures
            forall|i: int| 0 <= i < E ==> r.count(i) == 0,
    {
        Self::repeat(N::zero())
    }

    /// The first `E` items of `items` in slot order, padded with zero counts
    /// where there are fewer than `E` items.
    pub fn from_iter(items: Vec<N>) -> (r: Self)
        ensures
            forall|i: int| 0 <= i < E && i < items@.len() ==> r@[i] == items@[i],
            forall|i: int| items@.len() <= i < E ==> r.count(i) == 0,
    {
        let mut v: Vec<N> = Vec::new();
        let mut i: usize = 0;
        while i < E
            invariant
                i <= E,
                v@.len() == i,
                forall|j: int| 0 <= j < i && j < items@.len() ==> v@[j] == items@[j],
                forall|j: int| items@.len() <= j < i ==> v@[j].count_value() == 0,
            decreases E - i,
        {
            let elem = if i < items.len() {
                items[i]
            } else {
                N::zero()
            };
            v.push(elem);
            i = i + 1;
        }
        SlotMultiset { data: v }
    }

    /// The meet of two multisets: at each index, the smaller count.
    pub fn intersection(&self, other: &Self) -> (r: Self)
        ensures
            forall|i: int|
                0 <= i < E ==> #[trigger] r.count(i) == min_int(self.count(i), other.count(i)),
    {
        proof {
            use_type_invariant(self);
            use_type_invariant(other);
        }
        let mut v: Vec<N> = Vec::new();
        let mut i: usize = 0;
        while i < E
            invariant
                i <= E,
                self.data@.len() == E,
                other.data@.len() == E,
                v@.len() == i,
                forall|j: int|
                    0 <= j < i ==> v@[j].count_value() == min_int(self.count(j), other.count(j)),
            decreases E - i,
        {
            let a = self.data[i];
            let b = other.data[i];
            if b.is_less(&a) {
                v.push(b);
            } else {
                v.push(a);
            }
            i = i + 1;
        }
        SlotMultiset { data: v }
    }

    /// The join of two multisets: at each index, the larger count.
    pub fn union(&self, other: &Self) -> (r: Self)
        ensures
            forall|i: int|
                0 <= i < E ==> #[trigger] r.count(i) == max_int(self.count(i), other.count(i)),
    {
        proof {
            use_type_invariant(self);
            use_type_invariant(other);
        }
        let mut v: Vec<N> = Vec::new();
        let mut i: usize = 0;
        while i < E
            invariant
                i <= E,
                self.data@.len() == E,
                other.data@.len() == E,
                v@.len() == i,
                forall|j: int|
                    0 <= j < i ==> v@[j].count_value() == max_int(self.count(j), other.count(j)),
            decreases E - i,
        {
            let a = self.data[i];
            let b = other.data[i];
            if a.is_less(&b) {
                v.push(b);
            } else {
                v.push(a);
            }
            i = i + 1;
        }
        SlotMultiset { data: v }
    }

    /// The number of indices that occur at least once.
    pub fn count_non_zero(&self) -> (r: usize)
        ensures
            r == seq_nonzero(self@),
    {
        proof {
            use_type_invariant(self);
        }
        let ghost s = self@;
        let z = N::zero();
        let mut acc: usize = 0;
        let mut i: usize = 0;
        while i < E
            invariant
                i <= E,
                s == self@,
                s.len() == E,
                self.data@.len() == E,
                z.count_value() == 0,
                acc <= i,
                acc == seq_nonzero(s.take(i as int)),
            decreases E - i,
        {
            proof {
                lemma_slots_take_step(s, i as int);
            }
            if !self.data[i].is_equal(&z) {
                acc = acc + 1;
            }
            i = i + 1;
        }
        proof {
            lemma_take_all(s);
        }
        acc
    }

    /// The number of indices that do not occur.
    pub fn count_zero(&self) -> (r: usize)
        ensures
            r == seq_zero(self@),
    {
        proof {
            use_type_invariant(self);
        }
        let ghost s = self@;
        let z = N::zero();
        let mut acc: usize = 0;
        let mut i: usize = 0;
        while i < E
            invariant
                i <= E,
                s == self@,
                s.len() == E,
                self.data@.len() == E,
                z.count_value() == 0,
                acc <= i,
                acc == seq_zero(s.take(i as int)),
            decreases E - i,
        {
            proof {
                lemma_slots_take_step(s, i as int);
            }
            if self.data[i].is_equal(&z) {
                acc = acc + 1;
            }
            i = i + 1;
        }
        proof {
            lemma_take_all(s);
        }
        acc
    }

    /// Whether no index occurs.
    pub fn is_empty(&self) -> (r: bool)
        ensures
            r == self.all_zero(),
    {
        proof {
            use_type_invariant(self);
        }
        let z = N::zero();
        let mut i: usize = 0;
        while i < E
            invariant
                i <= E,
                self.data@.len() == E,
                z.count_value() == 0,
                forall|j: int| 0 <= j < i ==> #[trigger] self.count(j) == 0,
            decreases E - i,
        {
            if !self.data[i].is_equal(&z) {
                assert(self.count(i as int) != 0);
                return false;
            }
            i = i + 1;
        }
        true
    }

    /// Whether exactly one index occurs.
    pub fn is_singleton(&self) -> (r: bool)
        ensures
            r == (seq_nonzero(self@) == 1),
    {
        self.count_non_zero() == 1
    }

    /// Whether every count of `self` is at most the count of `other`.
    pub fn is_subset(&self, other: &Self) -> (r: bool)
        ensures
            r == self.counts_le(*other),
    {
        proof {
            use_type_invariant(self);
            use_type_invariant(other);
        }
        let mut i: usize = 0;
        while i < E
            invariant
                i <= E,
                self.data@.len() == E,
                other.data@.len() == E,
                forall|j: int| 0 <= j < i ==> #[trigger] self.count(j) <= other.count(j),
            decreases E - i,
        {
            if other.data[i].is_less(&self.data[i]) {
                assert(!(self.count(i as int) <= other.count(i as int)));
                return false;
            }
            i = i + 1;
        }
        true
    }

    /// Whether every count of `self` is at least the count of `other`.
    pub fn is_superset(&self, other: &Self) -> (r: bool)
        ensures
            r == other.counts_le(*self),
    {
        other.is_subset(self)
    }

    /// Whether some count of `self` is below the count of `other`.
    pub fn is_any_lesser(&self, other: &Self) -> (r: bool)
        ensures
            r == self.some_count_lt(*other),
    {
        proof {
            use_type_invariant(self);
            use_type_invariant(other);
        }
        let mut i: usize = 0;
        while i < E
            invariant
                i <= E,
                self.data@.len() == E,
                other.data@.len() == E,
                forall|j: int| 0 <= j < i ==> !(#[trigger] self.count(j) < other.count(j)),
            decreases E - i,
        {
            if self.data[i].is_less(&other.data[i]) {
                assert(self.count(i as int) < other.count(i as int));
                return true;
            }
            i = i + 1;
        }
        false
    }

    /// Whether some count of `self` is above the count of `other`.
    pub fn is_any_greater(&self, other: &Self) -> (r: bool)
        ensures
            r == other.some_count_lt(*self),
    {
        other.is_any_lesser(self)
    }

    /// Whether every count of `self` is at most the count of `other`, and
    /// some count is below it.
    pub fn is_proper_subset(&self, other: &Self) -> (r: bool)
        ensures
            r == (self.counts_le(*other) && self.some_count_lt(*other)),
    {
        proof {
            use_type_invariant(self);
            use_type_invariant(other);
        }
        let mut any_lt = false;
        let mut all_le = true;
        let mut i: usize = 0;
        while i < E
            invariant
                i <= E,
                self.data@.len() == E,
                other.data@.len() == E,
                any_lt == exists|j: int| 0 <= j < i && #[trigger] self.count(j) < other.count(j),
                all_le == forall|j: int| 0 <= j < i ==> #[trigger] self.count(j) <= other.count(j),
            decreases E - i,
        {
            let a = self.data[i];
            let b = other.data[i];
            let lt = a.is_less(&b);
            let le = !b.is_less(&a);
            assert(lt == (self.count(i as int) < other.count(i as int)));
            assert(le == (self.count(i as int) <= other.count(i as int)));
            any_lt = any_lt || lt;
            all_le = all_le && le;
            i = i + 1;
        }
        any_lt && all_le
    }

    /// Whether every count of `self` is at least the count of `other`, and
    /// some count is above it.
    pub fn is_proper_superset(&self, other: &Self) -> (r: bool)
        ensures
            r == (other.counts_le(*self) && other.some_count_lt(*self)),
    {
        other.is_proper_subset(self)
    }

    /// Whether every index that occurs in `self` occurs in `other` at least
    /// as often.
    pub fn is_intersection_subset(&self, other: &Self) -> (r: bool)
        ensures
            r == forall|i: int|
                0 <= i < E && #[trigger] self.count(i) > 0 ==> self.count(i) <= other.count(i),
    {
        proof {
            use_type_invariant(self);
            use_type_invariant(other);
        }
        let z = N::zero();
        let mut i: usize = 0;
        while i < E
            invariant
                i <= E,
                self.data@.len() == E,
                other.data@.len() == E,
                z.count_value() == 0,
                forall|j: int|
                    0 <= j < i && #[trigger] self.count(j) > 0 ==> self.count(j) <= other.count(j),
            decreases E - i,
        {
            let a = self.data[i];
            let b = other.data[i];
            if z.is_less(&a) && b.is_less(&a) {
                assert(self.count(i as int) > 0);
                return false;
            }
            i = i + 1;
        }
        true
    }

    /// Whether every index that occurs in `self` occurs in `other` at most
    /// as often.
    pub fn is_intersection_superset(&self, other: &Self) -> (r: bool)
        ensures
            r == forall|i: int|
                0 <= i < E && #[trigger] self.count(i) > 0 ==> self.count(i) >= other.count(i),
    {
        proof {
            use_type_invariant(self);
            use_type_invariant(other);
        }
        let z = N::zero();
        let mut i: usize = 0;
        while i < E
            invariant
                i <= E,
                self.data@.len() == E,
                other.data@.len() == E,
                z.count_value() == 0,
                forall|j: int|
                    0 <= j < i && #[trigger] self.count(j) > 0 ==> self.count(j) >= other.count(j),
            decreases E - i,
        {
            let a = self.data[i];
            let b = other.data[i];
            if z.is_less(&a) && a.is_less(&b) {
                assert(self.count(i as int) > 0);
                return false;
            }
            i = i + 1;
        }
        true
    }

    /// The sum of all counts, which must fit in `N`.
    pub fn total_elements(&self) -> (r: N)
        requires
            self.total() <= N::max_count(),
        ensures
            r.count_value() == self.total(),
    {
        proof {
            use_type_invariant(self);
        }
        let ghost s = self@;
        let mut acc = N::zero();
        let mut i: usize = 0;
        while i < E
            invariant
                i <= E,
                s == self@,
                s.len() == E,
                self.data@.len() == E,
                seq_total(s) <= N::max_count(),
                acc.count_value() == seq_total(s.take(i as int)),
            decreases E - i,
        {
            proof {
                lemma_total_take_step(s, i as int);
                lemma_total_take_le(s, i as int + 1);
            }
            acc = acc.plus(self.data[i]);
            i = i + 1;
        }
        proof {
            lemma_take_all(s);
        }
        acc
    }

    /// Keeps only index `elem`: every other slot is set to zero. When `elem`
    /// lies outside `0 .. E`, every slot is set to zero.
    pub fn choose_element(&mut self, elem: usize)
        ensures
            forall|i: int|
                0 <= i < E ==> #[trigger] final(self).count(i) == if i == elem {
                    old(self).count(i)
                } else {
                    0
                },
            elem < E ==> final(self)@[elem as int] == old(self)@[elem as int],
    {
        proof {
            use_type_invariant(&*self);
        }
        let ghost s = self@;
        let mut i: usize = 0;
        while i < E
            invariant
                i <= E,
                s.len() == E,
                self.data@.len() == E,
                forall|j: int| 0 <= j < i && j != elem ==> self.data@[j].count_value() == 0,
                forall|j: int| i <= j < E ==> self.data@[j] == s[j],
                elem < i ==> self.data@[elem as int] == s[elem as int],
            decreases E - i,
        {
            if i != elem {
                self.data[i] = N::zero();
            }
            i = i + 1;
        }
    }

    /// Keeps only the slot that `threshold` picks: the first slot at which the
    /// running total of counts reaches `threshold`. Every other slot is set to
    /// zero; when the total stays below `threshold`, every slot is.
    #[verifier::spinoff_prover]
    #[verifier::rlimit(30)]
    pub fn choose_cumulative(&mut self, threshold: N)
        requires
            old(self).total() <= N::max_count(),
        ensures
            keeps_picked(old(self)@, final(self)@, threshold.count_value()),
            forall|i: int|
                0 <= i < E && picked_slot(old(self)@, threshold.count_value(), i)
                    ==> final(self)@[i] == old(self)@[i],
    {
        proof {
            use_type_invariant(&*self);
        }
        let ghost s = self@;
        let ghost t = threshold.count_value();
        let mut acc = N::zero();
        let mut chosen = false;
        let mut i: usize = 0;
        while i < E
            invariant
                i <= E,
                s.len() == E,
                self.data@.len() == E,
                seq_total(s) <= N::max_count(),
                t == threshold.count_value(),
                !chosen ==> acc.count_value() == seq_total(s.take(i as int)),
                chosen <==> (i > 0 && seq_total(s.take(i as int)) >= t),
                forall|j: int|
                    0 <= j < i ==> self.data@[j].count_value() == if picked_slot(s, t, j) {
                        s[j].count_value()
                    } else {
                        0
                    },
                forall|j: int| 0 <= j < i && picked_slot(s, t, j) ==> self.data@[j] == s[j],
                forall|j: int| i <= j < E ==> self.data@[j] == s[j],
            decreases E - i,
        {
            proof {
                lemma_total_take_step(s, i as int);
                lemma_total_take_le(s, i as int + 1);
                s[i as int].lemma_count_bounds();
            }
            if chosen {
                self.data[i] = N::zero();
            } else {
                acc = acc.plus(self.data[i]);
                if acc.is_less(&threshold) {
                    self.data[i] = N::zero();
                } else {
                    chosen = true;
                }
            }
            i = i + 1;
        }
    }

    /// Keeps only one slot, drawn from `rng` with probability proportional
    /// to its count: a threshold `t` is drawn from `0 ..= total` and the slot
    /// that `t` picks is kept (see `choose_cumulative`). The total plus one
    /// must fit in `N`.
    pub fn choose_random(&mut self, rng: &mut StdRng)
        requires
            old(self).total() + 1 <= N::max_count(),
        ensures
            exists|t: int|
                0 <= t <= old(self).total() && #[trigger] keeps_picked(
                    old(self)@,
                    final(self)@,
                    t,
                ),
    {
        proof {
            lemma_total_take_le(self@, 0);
        }
        let total = self.total_elements();
        let high = total.plus(N::one());
        let choice = N::random_in(rng, N::zero(), high);
        self.choose_cumulative(choice);
    }

    /// The first index holding a largest count, and that count. There must be
    /// at least one slot.
    pub fn largest(&self) -> (r: (usize, N))
        requires
            E > 0,
        ensures
            r.0 < E,
            r.1 == self@[r.0 as int],
            forall|i: int| 0 <= i < E ==> self.count(i) <= r.1.count_value(),
            forall|i: int| 0 <= i < r.0 ==> self.count(i) < r.1.count_value(),
    {
        proof {
            use_type_invariant(self);
        }
        let mut the_max = self.data[0];
        let mut the_i: usize = 0;
        let mut i: usize = 1;
        while i < E
            invariant
                1 <= i <= E,
                self.data@.len() == E,
                the_i < i,
                the_max == self@[the_i as int],
                forall|j: int| 0 <= j < i ==> self.count(j) <= the_max.count_value(),
                forall|j: int| 0 <= j < the_i ==> self.count(j) < the_max.count_value(),
            decreases E - i,
        {
            let val = self.data[i];
            if the_max.is_less(&val) {
                the_max = val;
                the_i = i;
            }
            i = i + 1;
        }
        (the_i, the_max.inlined_clone())
    }

    /// The first index holding a smallest count, and that count. There must
    /// be at least one slot.
    pub fn smallest(&self) -> (r: (usize, N))
        requires
            E > 0,
        ensures
            r.0 < E,
            r.1 == self@[r.0 as int],
            forall|i: int| 0 <= i < E ==> r.1.count_value() <= self.count(i),
            forall|i: int| 0 <= i < r.0 ==> r.1.count_value() < self.count(i),
    {
        proof {
            use_type_invariant(self);
        }
        let mut the_min = self.data[0];
        let mut the_i: usize = 0;
        let mut i: usize = 1;
        while i < E
            invariant
                1 <= i <= E,
                self.data@.len() == E,
                the_i < i,
                the_min == self@[the_i as int],
                forall|j: int| 0 <= j < i ==> the_min.count_value() <= self.count(j),
                forall|j: int| 0 <= j < the_i ==> the_min.count_value() < self.count(j),
            decreases E - i,
        {
            let val = self.data[i];
            if val.is_less(&the_min) {
                the_min = val;
                the_i = i;
            }
            i = i + 1;
        }
        (the_i, the_min.inlined_clone())
    }

    /// Whether index `elem` occurs at least once; indices outside `0 .. E`
    /// never occur.
    pub fn contains(&self, elem: usize) -> (r: bool)
        ensures
            r == (elem < E && self.count(elem as int) > 0),
    {
        proof {
            use_type_invariant(self);
        }
        if elem < E {
            let z = N::zero();
            z.is_less(&self.data[elem])
        } else {
            false
        }
    }

    /// Whether index `elem`, which must lie in `0 .. E`, occurs at least once.
    pub fn contains_unchecked(&self, elem: usize) -> (r: bool)
        requires
            elem < E,
        ensures
            r == (self.count(elem as int) > 0),
    {
        proof {
            use_type_invariant(self);
        }
        let z = N::zero();
        z.is_less(&self.data[elem])
    }
}

impl<N: Count, const E: usize> SlotMultiset<N, E> {
    /// Adds the counts of `rhs` to those of `self`, index by index; every
    /// sum must fit in `N`.
    pub fn add_assign(&mut self, rhs: Self)
        requires
            forall|i: int|
                0 <= i < E ==> #[trigger] old(self).count(i) + rhs.count(i) <= N::max_count(),
        ensures
            forall|i: int|
                0 <= i < E ==> #[trigger] final(self).count(i) == old(self).count(i) + rhs.count(
                    i,
                ),
    {
        proof {
            use_type_invariant(&*self);
            use_type_invariant(&rhs);
        }
        let ghost s = self@;
        let mut i: usize = 0;
        while i < E
            invariant
                i <= E,
                s.len() == E,
                s == old(self)@,
                self.data@.len() == E,
                rhs.data@.len() == E,
                forall|j: int|
                    0 <= j < E ==> #[trigger] old(self).count(j) + rhs.count(j) <= N::max_count(),
                forall|j: int|
                    0 <= j < i ==> self.data@[j].count_value() == s[j].count_value() + rhs.count(j),
                forall|j: int| i <= j < E ==> self.data@[j] == s[j],
            decreases E - i,
        {
            let e = rhs.data[i].inlined_clone();
            proof {
                assert(old(self).count(i as int) + rhs.count(i as int) <= N::max_count());
                assert(e == rhs@[i as int]);
            }
            let sum = self.data[i].plus(e);
            self.data[i] = sum;
            i = i + 1;
        }
    }
}

impl<N: Count, const E: usize> Default for SlotMultiset<N, E> {
    /// The multiset in which no index occurs.
    fn default() -> (r: Self)
        ensures
            r.all_zero(),
    {
        Self::empty()
    }
}

impl<N: ElemScalar + PartialEq, const E: usize> PartialEq for SlotMultiset<N, E> {
    /// Slot-by-slot equality.
    fn eq(&self, other: &Self) -> (r: bool) {
        proof {
            use_type_invariant(self);
            use_type_invariant(other);
        }
        let mut i: usize = 0;
        while i < E
            invariant
                i <= E,
                self.data@.len() == E,
                other.data@.len() == E,
                N::obeys_eq_spec() ==> forall|j: int|
                    0 <= j < i ==> (#[trigger] self@[j]).eq_spec(&other@[j]),
            decreases E - i,
        {
            let same = self.data[i] == other.data[i];
            proof {
                assert(self.data@[i as int] == self@[i as int]);
                assert(other.data@[i as int] == other@[i as int]);
            }
            if !same {
                return false;
            }
            i = i + 1;
        }
        true
    }
}

impl<N: ElemScalar + PartialEq, const E: usize> vstd::std_specs::cmp::PartialEqSpecImpl for SlotMultiset<N, E> {
    open spec fn obeys_eq_spec() -> bool {
        N::obeys_eq_spec()
    }

    open spec fn eq_spec(&self, other: &Self) -> bool {
        forall|i: int| 0 <= i < E ==> (#[trigger] self@[i]).eq_spec(&other@[i])
    }
}

impl<N: ElemScalar, const E: usize> std::ops::Index<usize> for SlotMultiset<N, E> {
    type Output = N;

    /// The value held in slot `index`, which must lie in `0 .. E`.
    fn index(&self, index: usize) -> (r: &N)
        ensures
            *r == self@[index as int],
    {
        proof {
            use_type_invariant(self);
        }
        &self.data[index]
    }
}

impl<N: ElemScalar, const E: usize> vstd::std_specs::core::IndexSpecImpl<usize> for SlotMultiset<N, E> {
    open spec fn index_req(&self, index: &usize) -> bool {
        *index < E
    }
}

impl<'a, N: ElemScalar, const E: usize> IntoIterator for &'a SlotMultiset<N, E> {
    type Item = &'a N;

    type IntoIter = std::slice::Iter<'a, N>;

    /// An iterator over the slots, in index order.
    fn into_iter(self) -> (r: std::slice::Iter<'a, N>)
        ensures
            r.remaining() == self@.as_ref(),
    {
        self.iter()
    }
}

impl<'a, N: ElemScalar, const E: usize> IntoIterator for &'a mut SlotMultiset<N, E> {
    type Item = &'a mut N;

    type IntoIter = std::slice::IterMut<'a, N>;

    /// An iterator of mutable references to the slots, in index order.
    fn into_iter(self) -> (r: std::slice::IterMut<'a, N>)
        ensures
            r.remaining().len() == E,
            forall|i: int| 0 <= i < E ==> *r.remaining()[i] == old(self)@[i],
    {
        self.iter_mut()
    }
}

} // verus!
