//! Spec functions over the sequence of counts of a multiset, and the lemmas
//! about them that the proofs use.
use crate::count::Count;
use vstd::prelude::*;

verus! {

/// The sum of the counts in `s`.
pub open spec fn seq_total<N: Count>(s: Seq<N>) -> int
    decreases s.len(),
{
    if s.len() == 0 {
        0
    } else {
        seq_total(s.drop_last()) + s.last().count_value()
    }
}

/// The number of slots of `s` whose count is not zero.
pub open spec fn seq_nonzero<N: Count>(s: Seq<N>) -> int
    decreases s.len(),
{
    if s.len() == 0 {
        0
    } else {
        seq_nonzero(s.drop_last()) + if s.last().count_value() != 0 {
            1int
        } else {
            0int
        }
    }
}

/// The number of slots of `s` whose count is zero.
pub open spec fn seq_zero<N: Count>(s: Seq<N>) -> int
    decreases s.len(),
{
    if s.len() == 0 {
        0
    } else {
        seq_zero(s.drop_last()) + if s.last().count_value() == 0 {
            1int
        } else {
            0int
        }
    }
}

/// The smaller of two numbers.
pub open spec fn min_int(a: int, b: int) -> int {
    if a <= b {
        a
    } else {
        b
    }
}

/// The larger of two numbers.
pub open spec fn max_int(a: int, b: int) -> int {
    if a >= b {
        a
    } else {
        b
    }
}


/// Whether slot `i` of `s` is the one that threshold `t` picks: the first slot
/// at which the running total of counts reaches `t`.
pub open spec fn picked_slot<N: Count>(s: Seq<N>, t: int, i: int) -> bool {
    &&& t <= seq_total(s.take(i + 1))
    &&& (i == 0 || seq_total(s.take(i)) < t)
}

/// `after` is `before` with every slot set to zero but the one that threshold
/// `t` picks, which keeps its count.
pub open spec fn keeps_picked<N: Count>(before: Seq<N>, after: Seq<N>, t: int) -> bool {
    &&& after.len() == before.len()
    &&& forall|i: int|
        0 <= i < before.len() ==> #[trigger] after[i].count_value() == if picked_slot(
            before,
            t,
            i,
        ) {
            before[i].count_value()
        } else {
            0
        }
}

/// Extending a prefix by one slot adds that slot's count.
pub proof fn lemma_total_take_step<N: Count>(s: Seq<N>, k: int)
    requires
        0 <= k < s.len(),
    ensures
        seq_total(s.take(k + 1)) == seq_total(s.take(k)) + s[k].count_value(),
{
    assert(s.take(k + 1).drop_last() =~= s.take(k));
}

/// Extending a prefix by one slot adds one to the nonzero count when that
/// slot's count is nonzero, and one to the zero count when it is zero.
pub proof fn lemma_slots_take_step<N: Count>(s: Seq<N>, k: int)
    requires
        0 <= k < s.len(),
    ensures
        seq_nonzero(s.take(k + 1)) == seq_nonzero(s.take(k)) + if s[k].count_value() != 0 {
            1int
        } else {
            0int
        },
        seq_zero(s.take(k + 1)) == seq_zero(s.take(k)) + if s[k].count_value() == 0 {
            1int
        } else {
            0int
        },
{
    assert(s.take(k + 1).drop_last() =~= s.take(k));
}

/// The whole sequence is its longest prefix.
pub proof fn lemma_take_all<N>(s: Seq<N>)
    ensures
        s.take(s.len() as int) == s,
{
    assert(s.take(s.len() as int) =~= s);
}

/// Totals of prefixes grow with the prefix.
pub proof fn lemma_total_take_mono<N: Count>(s: Seq<N>, j: int, k: int)
    requires
        0 <= j <= k <= s.len(),
    ensures
        0 <= seq_total(s.take(j)) <= seq_total(s.take(k)),
    decreases k,
{
    if k == 0 {
        assert(s.take(0) =~= Seq::<N>::empty());
    } else {
        if j == k {
            lemma_total_take_mono(s, k - 1, k - 1);
        } else {
            lemma_total_take_mono(s, j, k - 1);
        }
        lemma_total_take_step(s, k - 1);
        s[k - 1].lemma_count_bounds();
    }
}

/// A prefix total never exceeds the whole total.
pub proof fn lemma_total_take_le<N: Count>(s: Seq<N>, k: int)
    requires
        0 <= k <= s.len(),
    ensures
        0 <= seq_total(s.take(k)) <= seq_total(s),
{
    lemma_total_take_mono(s, k, s.len() as int);
    lemma_take_all(s);
}

/// At most one slot is picked by a threshold.
pub proof fn lemma_picked_unique<N: Count>(s: Seq<N>, t: int, i: int, j: int)
    requires
        0 <= i < j < s.len(),
        picked_slot(s, t, i),
    ensures
        !picked_slot(s, t, j),
{
    lemma_total_take_mono(s, i + 1, j);
}

/// Each slot is counted either as zero or as nonzero.
pub proof fn lemma_zero_nonzero_len<N: Count>(s: Seq<N>)
    ensures
        seq_zero(s) + seq_nonzero(s) == s.len(),
        0 <= seq_nonzero(s) <= s.len(),
    decreases s.len(),
{
    if s.len() > 0 {
        lemma_zero_nonzero_len(s.drop_last());
    }
}

/// No slot is nonzero exactly when every count is zero.
pub proof fn lemma_nonzero_none<N: Count>(s: Seq<N>)
    ensures
        seq_nonzero(s) == 0 <==> forall|i: int| 0 <= i < s.len() ==> #[trigger] s[i].count_value()
            == 0,
    decreases s.len(),
{
    if s.len() > 0 {
        let d = s.drop_last();
        lemma_nonzero_none(d);
        lemma_zero_nonzero_len(d);
        if seq_nonzero(s) == 0 {
            assert forall|i: int| 0 <= i < s.len() implies #[trigger] s[i].count_value() == 0 by {
                if i < s.len() - 1 {
                    assert(d[i] == s[i]);
                }
            }
        }
        if forall|i: int| 0 <= i < s.len() ==> #[trigger] s[i].count_value() == 0 {
            assert forall|i: int| 0 <= i < d.len() implies #[trigger] d[i].count_value() == 0 by {
                assert(d[i] == s[i]);
            }
            assert(s.last().count_value() == 0);
        }
    }
}

/// A sequence whose only nonzero count is at `k` has one nonzero slot.
pub proof fn lemma_nonzero_single<N: Count>(s: Seq<N>, k: int)
    requires
        0 <= k < s.len(),
        s[k].count_value() != 0,
        forall|i: int| 0 <= i < s.len() && i != k ==> #[trigger] s[i].count_value() == 0,
    ensures
        seq_nonzero(s) == 1,
    decreases s.len(),
{
    let d = s.drop_last();
    if k == s.len() - 1 {
        assert forall|i: int| 0 <= i < d.len() implies #[trigger] d[i].count_value() == 0 by {
            assert(d[i] == s[i]);
        }
        lemma_nonzero_none(d);
    } else {
        assert(d[k] == s[k]);
        assert forall|i: int| 0 <= i < d.len() && i != k implies #[trigger] d[i].count_value()
            == 0 by {
            assert(d[i] == s[i]);
        }
        lemma_nonzero_single(d, k);
    }
}

/// The total of slot-by-slot sums is the sum of the totals.
pub proof fn lemma_total_pointwise_sum<N: Count>(a: Seq<N>, b: Seq<N>, c: Seq<N>)
    requires
        a.len() == b.len() == c.len(),
        forall|i: int|
            0 <= i < c.len() ==> #[trigger] c[i].count_value() == a[i].count_value()
                + b[i].count_value(),
    ensures
        seq_total(c) == seq_total(a) + seq_total(b),
    decreases c.len(),
{
    if c.len() > 0 {
        let (da, db, dc) = (a.drop_last(), b.drop_last(), c.drop_last());
        assert forall|i: int| 0 <= i < dc.len() implies #[trigger] dc[i].count_value()
            == da[i].count_value() + db[i].count_value() by {
            assert(c[i].count_value() == a[i].count_value() + b[i].count_value());
        }
        lemma_total_pointwise_sum(da, db, dc);
        assert(c.last().count_value() == a.last().count_value() + b.last().count_value());
    }
}

/// When `t` is at most the prefix total up to and including slot `k`, some
/// slot at or before `k` is picked by `t`.
pub proof fn lemma_picked_exists<N: Count>(s: Seq<N>, t: int, k: int)
    requires
        0 <= k < s.len(),
        t <= seq_total(s.take(k + 1)),
    ensures
        exists|i: int| 0 <= i <= k && #[trigger] picked_slot(s, t, i),
    decreases k,
{
    if k == 0 {
        assert(picked_slot(s, t, 0));
    } else if t <= seq_total(s.take(k)) {
        lemma_picked_exists(s, t, k - 1);
        let i = choose|i: int| 0 <= i <= k - 1 && #[trigger] picked_slot(s, t, i);
        assert(picked_slot(s, t, i));
    } else {
        assert(picked_slot(s, t, k));
    }
}

/// A picked slot with a positive threshold has a positive count.
pub proof fn lemma_picked_positive<N: Count>(s: Seq<N>, t: int, i: int)
    requires
        0 <= i < s.len(),
        1 <= t,
        picked_slot(s, t, i),
    ensures
        s[i].count_value() > 0,
{
    lemma_total_take_step(s, i);
    if i == 0 {
        assert(s.take(0) =~= Seq::<N>::empty());
    }
}

/// A sequence with one nonzero slot has a slot holding the only nonzero
/// count.
pub proof fn lemma_nonzero_one_witness<N: Count>(s: Seq<N>)
    requires
        seq_nonzero(s) == 1,
    ensures
        exists|k: int|
            0 <= k < s.len() && #[trigger] s[k].count_value() != 0 && forall|i: int|
                0 <= i < s.len() && i != k ==> #[trigger] s[i].count_value() == 0,
    decreases s.len(),
{
    let d = s.drop_last();
    let k = s.len() - 1;
    lemma_zero_nonzero_len(d);
    if s[k].count_value() != 0 {
        lemma_nonzero_none(d);
        assert forall|i: int| 0 <= i < s.len() && i != k implies #[trigger] s[i].count_value()
            == 0 by {
            assert(d[i] == s[i]);
        }
        assert(s[k].count_value() != 0);
    } else {
        lemma_nonzero_one_witness(d);
        let j = choose|j: int|
            0 <= j < d.len() && #[trigger] d[j].count_value() != 0 && forall|i: int|
                0 <= i < d.len() && i != j ==> #[trigger] d[i].count_value() == 0;
        assert(d[j] == s[j]);
        assert forall|i: int| 0 <= i < s.len() && i != j implies #[trigger] s[i].count_value()
            == 0 by {
            if i < k {
                assert(d[i] == s[i]);
            }
        }
        assert(s[j].count_value() != 0);
    }
}

} // verus!
