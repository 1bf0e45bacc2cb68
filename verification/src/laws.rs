//! Laws that relate the operations of `SlotMultiset`, stated over the spec
//! functions that the operations' own contracts use.
use crate::count::Count;
use crate::multiset::{lemma_view_len, SlotMultiset};
use crate::seq_counts::{
    keeps_picked, lemma_nonzero_none, lemma_nonzero_one_witness, lemma_nonzero_single, lemma_picked_exists,
    lemma_picked_positive, lemma_picked_unique, lemma_take_all, lemma_total_pointwise_sum,
    lemma_total_take_le, lemma_total_take_step,
    lemma_zero_nonzero_len, max_int, min_int, picked_slot, seq_nonzero, seq_total, seq_zero,
};
use vstd::prelude::*;
use vstd::set_lib::{lemma_int_range, set_int_range};

verus! {

/// The intersection of two multisets is a subset of each of them: a multiset
/// whose counts are the smaller ones of `a` and `b` satisfies `is_subset`
/// against both.
pub proof fn law_intersection_within_operands<N: Count, const E: usize>(
    a: SlotMultiset<N, E>,
    b: SlotMultiset<N, E>,
    r: SlotMultiset<N, E>,
)
    requires
        forall|i: int| 0 <= i < E ==> #[trigger] r.count(i) == min_int(a.count(i), b.count(i)),
    ensures
        r.counts_le(a),
        r.counts_le(b),
{
    assert forall|i: int| 0 <= i < E implies #[trigger] r.count(i) <= a.count(i) by {
        assert(r.count(i) == min_int(a.count(i), b.count(i)));
    }
    assert forall|i: int| 0 <= i < E implies #[trigger] r.count(i) <= b.count(i) by {
        assert(r.count(i) == min_int(a.count(i), b.count(i)));
    }
}

/// Each operand of a union is a subset of the union.
pub proof fn law_union_covers_operands<N: Count, const E: usize>(
    a: SlotMultiset<N, E>,
    b: SlotMultiset<N, E>,
    r: SlotMultiset<N, E>,
)
    requires
        forall|i: int| 0 <= i < E ==> #[trigger] r.count(i) == max_int(a.count(i), b.count(i)),
    ensures
        a.counts_le(r),
        b.counts_le(r),
{
    assert forall|i: int| 0 <= i < E implies #[trigger] a.count(i) <= r.count(i) by {
        assert(r.count(i) == max_int(a.count(i), b.count(i)));
    }
    assert forall|i: int| 0 <= i < E implies #[trigger] b.count(i) <= r.count(i) by {
        assert(r.count(i) == max_int(a.count(i), b.count(i)));
    }
}

/// The totals of the intersection and of the union add up to the totals of
/// the two operands.
pub proof fn law_intersection_union_total<N: Count, const E: usize>(
    a: SlotMultiset<N, E>,
    b: SlotMultiset<N, E>,
    meet: SlotMultiset<N, E>,
    join: SlotMultiset<N, E>,
)
    requires
        forall|i: int| 0 <= i < E ==> #[trigger] meet.count(i) == min_int(a.count(i), b.count(i)),
        forall|i: int| 0 <= i < E ==> #[trigger] join.count(i) == max_int(a.count(i), b.count(i)),
    ensures
        meet.total() + join.total() == a.total() + b.total(),
{
    broadcast use lemma_view_len;

    // Both sides equal the total of the slot-by-slot sums; the sums need not
    // fit in `N`, so they are compared through a second pairing.
    assert forall|i: int| 0 <= i < a@.len() implies #[trigger] meet@[i].count_value()
        + join@[i].count_value() == a@[i].count_value() + b@[i].count_value() by {
        assert(meet.count(i) == min_int(a.count(i), b.count(i)));
        assert(join.count(i) == max_int(a.count(i), b.count(i)));
    }
    lemma_sum_totals_agree(a@, b@, meet@, join@);
}

/// Two pairs of sequences with the same slot-by-slot sums have the same
/// summed totals.
proof fn lemma_sum_totals_agree<N: Count>(a: Seq<N>, b: Seq<N>, c: Seq<N>, d: Seq<N>)
    requires
        a.len() == b.len() == c.len() == d.len(),
        forall|i: int|
            0 <= i < a.len() ==> #[trigger] c[i].count_value() + d[i].count_value()
                == a[i].count_value() + b[i].count_value(),
    ensures
        seq_total(c) + seq_total(d) == seq_total(a) + seq_total(b),
    decreases a.len(),
{
    if a.len() > 0 {
        let (da, db, dc, dd) = (a.drop_last(), b.drop_last(), c.drop_last(), d.drop_last());
        assert forall|i: int| 0 <= i < da.len() implies #[trigger] dc[i].count_value()
            + dd[i].count_value() == da[i].count_value() + db[i].count_value() by {
            assert(c[i].count_value() + d[i].count_value() == a[i].count_value()
                + b[i].count_value());
        }
        lemma_sum_totals_agree(da, db, dc, dd);
        assert(c.last().count_value() + d.last().count_value() == a.last().count_value()
            + b.last().count_value());
    }
}

/// Subset in both directions means equal multisets.
pub proof fn law_subset_antisymmetric<N: Count, const E: usize>(
    a: SlotMultiset<N, E>,
    b: SlotMultiset<N, E>,
)
    requires
        a.counts_le(b),
        b.counts_le(a),
    ensures
        a@ == b@,
{
    broadcast use lemma_view_len;

    assert forall|i: int| 0 <= i < E implies a@[i] == b@[i] by {
        assert(a.count(i) <= b.count(i) && b.count(i) <= a.count(i));
        a@[i].lemma_count_injective(b@[i]);
    }
    assert(a@ =~= b@);
}

/// A proper subset is exactly a subset that differs from the other multiset.
pub proof fn law_proper_subset_is_strict<N: Count, const E: usize>(
    a: SlotMultiset<N, E>,
    b: SlotMultiset<N, E>,
)
    ensures
        (a.counts_le(b) && a.some_count_lt(b)) <==> (a.counts_le(b) && a@ != b@),
{
    broadcast use lemma_view_len;

    if a.counts_le(b) && a.some_count_lt(b) {
        let i = choose|i: int| 0 <= i < E && #[trigger] a.count(i) < b.count(i);
        assert(a@[i] != b@[i]);
    }
    if a.counts_le(b) && a@ != b@ {
        if !a.some_count_lt(b) {
            assert forall|i: int| 0 <= i < E implies a@[i] == b@[i] by {
                assert(a.count(i) <= b.count(i));
                assert(!(a.count(i) < b.count(i)));
                a@[i].lemma_count_injective(b@[i]);
            }
            assert(a@ =~= b@);
        }
    }
}

/// Some count of `a` lies below that of `b` exactly when `a` is not a
/// superset of `b`: `is_any_lesser` is the negation of `is_superset`.
pub proof fn law_any_lesser_is_not_superset<N: Count, const E: usize>(
    a: SlotMultiset<N, E>,
    b: SlotMultiset<N, E>,
)
    ensures
        a.some_count_lt(b) <==> !b.counts_le(a),
{
    if !b.counts_le(a) {
        let i = choose|i: int| 0 <= i < E && !(#[trigger] b.count(i) <= a.count(i));
        assert(a.count(i) < b.count(i));
    }
}

/// Every index is counted by exactly one of `count_zero` and
/// `count_non_zero`.
pub proof fn law_zero_and_nonzero_partition<N: Count, const E: usize>(a: SlotMultiset<N, E>)
    ensures
        seq_zero(a@) + seq_nonzero(a@) == E,
{
    broadcast use lemma_view_len;

    lemma_zero_nonzero_len(a@);
}

/// A multiset is empty exactly when no index occurs: `is_empty` agrees with
/// `count_non_zero() == 0`.
pub proof fn law_empty_iff_no_nonzero<N: Count, const E: usize>(a: SlotMultiset<N, E>)
    ensures
        a.all_zero() <==> seq_nonzero(a@) == 0,
{
    broadcast use lemma_view_len;

    lemma_nonzero_none(a@);
    if seq_nonzero(a@) == 0 {
        assert forall|i: int| 0 <= i < E implies #[trigger] a.count(i) == 0 by {
            assert(a@[i].count_value() == 0);
        }
    }
    if a.all_zero() {
        assert forall|i: int| 0 <= i < a@.len() implies #[trigger] a@[i].count_value() == 0 by {
            assert(a.count(i) == 0);
        }
    }
}

/// Keeping the picked slot leaves at most one index, each count no larger
/// than before: after `choose_cumulative` or `choose_random` the multiset is
/// a subset of what it was, and is a singleton or empty.
pub proof fn law_pick_keeps_at_most_one<N: Count>(before: Seq<N>, after: Seq<N>, t: int)
    requires
        keeps_picked(before, after, t),
    ensures
        seq_nonzero(after) <= 1,
        forall|i: int|
            0 <= i < before.len() ==> #[trigger] after[i].count_value()
                <= before[i].count_value(),
{
    assert forall|i: int| 0 <= i < before.len() implies #[trigger] after[i].count_value()
        <= before[i].count_value() by {
        before[i].lemma_count_bounds();
    }
    if exists|k: int| 0 <= k < before.len() && #[trigger] picked_slot(before, t, k) {
        let k = choose|k: int| 0 <= k < before.len() && #[trigger] picked_slot(before, t, k);
        assert forall|i: int| 0 <= i < after.len() && i != k implies #[trigger] after[i].count_value()
            == 0 by {
            if i < k {
                if picked_slot(before, t, i) {
                    lemma_picked_unique(before, t, i, k);
                }
            } else {
                lemma_picked_unique(before, t, k, i);
            }
        }
        if after[k].count_value() == 0 {
            lemma_nonzero_none(after);
        } else {
            lemma_nonzero_single(after, k);
        }
    } else {
        assert forall|i: int| 0 <= i < after.len() implies #[trigger] after[i].count_value()
            == 0 by {
            assert(!picked_slot(before, t, i));
        }
        lemma_nonzero_none(after);
    }
}

/// With a threshold in `1 ..= total`, keeping the picked slot leaves exactly
/// one index: `choose_random` on a multiset whose draw is not `0` yields a
/// singleton.
pub proof fn law_pick_positive_is_singleton<N: Count>(before: Seq<N>, after: Seq<N>, t: int)
    requires
        keeps_picked(before, after, t),
        1 <= t <= seq_total(before),
    ensures
        seq_nonzero(after) == 1,
{
    if before.len() == 0 {
        assert(seq_total(before) == 0);
    }
    lemma_take_all(before);
    lemma_picked_exists(before, t, before.len() - 1);
    let k = choose|k: int| 0 <= k <= before.len() - 1 && #[trigger] picked_slot(before, t, k);
    lemma_picked_positive(before, t, k);
    law_pick_keeps_at_most_one(before, after, t);
    assert(after[k].count_value() == before[k].count_value());
    lemma_zero_nonzero_len(after);
    if seq_nonzero(after) == 0 {
        lemma_nonzero_none(after);
    }
}

/// Adding one multiset into another adds their totals.
pub proof fn law_add_assign_total<N: Count, const E: usize>(
    before: SlotMultiset<N, E>,
    rhs: SlotMultiset<N, E>,
    after: SlotMultiset<N, E>,
)
    requires
        forall|i: int|
            0 <= i < E ==> #[trigger] after.count(i) == before.count(i) + rhs.count(i),
    ensures
        after.total() == before.total() + rhs.total(),
{
    broadcast use lemma_view_len;

    assert forall|i: int| 0 <= i < after@.len() implies #[trigger] after@[i].count_value()
        == before@[i].count_value() + rhs@[i].count_value() by {
        assert(after.count(i) == before.count(i) + rhs.count(i));
    }
    lemma_total_pointwise_sum(before@, rhs@, after@);
}

/// Choosing one element leaves a subset of the multiset it started from, with at most one
/// index, and a singleton when the chosen index occurred.
pub proof fn law_choose_element_singleton<N: Count, const E: usize>(
    before: SlotMultiset<N, E>,
    after: SlotMultiset<N, E>,
    elem: int,
)
    requires
        forall|i: int|
            0 <= i < E ==> #[trigger] after.count(i) == if i == elem {
                before.count(i)
            } else {
                0
            },
    ensures
        after.counts_le(before),
        seq_nonzero(after@) <= 1,
        0 <= elem < E && before.count(elem) > 0 ==> seq_nonzero(after@) == 1,
{
    broadcast use lemma_view_len;

    assert forall|i: int| 0 <= i < E implies #[trigger] after.count(i) <= before.count(i) by {
        before@[i].lemma_count_bounds();
        assert(after.count(i) == if i == elem {
            before.count(i)
        } else {
            0
        });
    }
    if 0 <= elem < E && after.count(elem) != 0 {
        assert forall|i: int| 0 <= i < after@.len() && i != elem implies #[trigger] after@[
            i
        ].count_value() == 0 by {
            assert(after.count(i) == 0);
        }
        lemma_nonzero_single(after@, elem);
    } else {
        assert forall|i: int| 0 <= i < after@.len() implies #[trigger] after@[i].count_value()
            == 0 by {
            assert(after.count(i) == if i == elem {
                before.count(i)
            } else {
                0
            });
        }
        lemma_nonzero_none(after@);
    }
}

/// A multiset is a singleton exactly when one index occurs and every other
/// does not: `is_singleton` agrees with "exactly one `contains`".
pub proof fn law_singleton_iff_one_index<N: Count, const E: usize>(a: SlotMultiset<N, E>)
    ensures
        seq_nonzero(a@) == 1 <==> exists|k: int|
            0 <= k < E && #[trigger] a.count(k) > 0 && forall|i: int|
                0 <= i < E && i != k ==> #[trigger] a.count(i) == 0,
{
    broadcast use lemma_view_len;

    if seq_nonzero(a@) == 1 {
        lemma_nonzero_one_witness(a@);
        let k = choose|k: int|
            0 <= k < a@.len() && #[trigger] a@[k].count_value() != 0 && forall|i: int|
                0 <= i < a@.len() && i != k ==> #[trigger] a@[i].count_value() == 0;
        a@[k].lemma_count_bounds();
        assert(a.count(k) > 0);
        assert forall|i: int| 0 <= i < E && i != k implies #[trigger] a.count(i) == 0 by {
            assert(a@[i].count_value() == 0);
        }
    }
    if exists|k: int|
        0 <= k < E && #[trigger] a.count(k) > 0 && forall|i: int|
            0 <= i < E && i != k ==> #[trigger] a.count(i) == 0 {
        let k = choose|k: int|
            0 <= k < E && #[trigger] a.count(k) > 0 && forall|i: int|
                0 <= i < E && i != k ==> #[trigger] a.count(i) == 0;
        assert forall|i: int| 0 <= i < a@.len() && i != k implies #[trigger] a@[i].count_value()
            == 0 by {
            assert(a.count(i) == 0);
        }
        lemma_nonzero_single(a@, k);
    }
}

/// Every threshold that `choose_random` can draw, `0 ..= total`, picks exactly
/// one slot.
pub proof fn law_every_threshold_picks_one<N: Count>(s: Seq<N>, t: int)
    requires
        s.len() > 0,
        0 <= t <= seq_total(s),
    ensures
        exists|k: int|
            0 <= k < s.len() && #[trigger] picked_slot(s, t, k) && forall|j: int|
                0 <= j < s.len() && j != k ==> !#[trigger] picked_slot(s, t, j),
{
    lemma_take_all(s);
    lemma_picked_exists(s, t, s.len() - 1);
    let k = choose|k: int| 0 <= k <= s.len() - 1 && #[trigger] picked_slot(s, t, k);
    assert forall|j: int| 0 <= j < s.len() && j != k implies !#[trigger] picked_slot(s, t, j) by {
        if j < k {
            if picked_slot(s, t, j) {
                lemma_picked_unique(s, t, j, k);
            }
        } else {
            lemma_picked_unique(s, t, k, j);
        }
    }
}

/// Of the `total + 1` thresholds `0 ..= total` that `choose_random` draws
/// from, slot `k` is kept by exactly as many as its count, and slot `0` by one
/// more (threshold `0` picks it). With a uniform draw, slot `k` is therefore
/// kept with probability `(count(k) + [k == 0]) / (total + 1)`.
pub proof fn law_pick_threshold_share<N: Count>(s: Seq<N>, k: int)
    requires
        0 <= k < s.len(),
    ensures
        Set::new(|t: int| 0 <= t <= seq_total(s) && picked_slot(s, t, k)).finite(),
        Set::new(|t: int| 0 <= t <= seq_total(s) && picked_slot(s, t, k)).len() == s[k].count_value()
            + if k == 0 {
            1int
        } else {
            0int
        },
{
    let kept = Set::new(|t: int| 0 <= t <= seq_total(s) && picked_slot(s, t, k));
    lemma_total_take_step(s, k);
    lemma_total_take_le(s, k);
    lemma_total_take_le(s, k + 1);
    s[k].lemma_count_bounds();
    if k == 0 {
        assert(s.take(0) =~= Seq::<N>::empty());
    }
    let lo = if k == 0 {
        0
    } else {
        seq_total(s.take(k)) + 1
    };
    let hi = seq_total(s.take(k + 1)) + 1;
    assert(kept =~= set_int_range(lo, hi));
    lemma_int_range(lo, hi);
}

} // verus!
