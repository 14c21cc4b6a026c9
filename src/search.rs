use vstd::prelude::*;

use crate::constraints::{find_label, label_views, COLUMNS_PER_OBJECT};

verus! {

/// `2` to the power `n`.
pub open spec fn pow2(n: nat) -> int
    decreases n,
{
    if n == 0 {
        1
    } else {
        2 * pow2((n - 1) as nat)
    }
}

/// Position of a candidate in the search order. Entry `i` of a candidate says
/// whether repair `i` is pinned to zero (`true`) or left free; repair 0 is
/// decided first and pinning is tried before leaving free, so the rank reads
/// the candidate as a binary number, first entry most significant, a free
/// repair counting as a one.
pub open spec fn candidate_rank(pins: Seq<bool>) -> int
    decreases pins.len(),
{
    if pins.len() == 0 {
        0
    } else {
        2 * candidate_rank(pins.drop_last()) + if pins.last() { 0int } else { 1int }
    }
}

/// Every repair that `a` pins, `b` pins too.
pub open spec fn pins_at_least(b: Seq<bool>, a: Seq<bool>) -> bool {
    a.len() == b.len() && forall|i: int| 0 <= i < a.len() && #[trigger] a[i] ==> b[i]
}

proof fn lemma_rank_bounds(p: Seq<bool>)
    ensures
        0 <= candidate_rank(p) < pow2(p.len()),
        candidate_rank(p) == pow2(p.len()) - 1 <==> forall|i: int| 0 <= i < p.len() ==> !#[trigger] p[i],
    decreases p.len(),
{
    if p.len() > 0 {
        lemma_rank_bounds(p.drop_last());
        if forall|i: int| 0 <= i < p.len() ==> !#[trigger] p[i] {
            assert forall|i: int| 0 <= i < p.drop_last().len() implies !#[trigger] p.drop_last()[i] by {
                assert(!p[i]);
            }
            assert(!p[p.len() - 1]);
        }
        if candidate_rank(p) == pow2(p.len()) - 1 {
            assert forall|i: int| 0 <= i < p.len() implies !#[trigger] p[i] by {
                if i < p.len() - 1 {
                    assert(p.drop_last()[i] == p[i]);
                }
            }
        }
    }
}

proof fn lemma_rank_append(a: Seq<bool>, b: Seq<bool>)
    ensures
        candidate_rank(a + b) == candidate_rank(a) * pow2(b.len()) + candidate_rank(b),
    decreases b.len(),
{
    if b.len() == 0 {
        assert(a + b =~= a);
    } else {
        lemma_rank_append(a, b.drop_last());
        assert((a + b).drop_last() =~= a + b.drop_last());
        let x = candidate_rank(a);
        let y = pow2(b.drop_last().len());
        let z = candidate_rank(b.drop_last());
        let w: int = if b.last() { 0 } else { 1 };
        assert(2 * (x * y + z) + w == x * (2 * y) + (2 * z + w)) by (nonlinear_arith);
    }
}

/// A candidate that pins every repair that another pins, and more, comes
/// strictly earlier in the search order.
pub proof fn lemma_more_pins_come_first(a: Seq<bool>, b: Seq<bool>)
    requires
        pins_at_least(b, a),
        a != b,
    ensures
        candidate_rank(b) < candidate_rank(a),
    decreases a.len(),
{
    let n = a.len();
    if n > 0 {
        let a0 = a.drop_last();
        let b0 = b.drop_last();
        assert(pins_at_least(b0, a0)) by {
            assert forall|i: int| 0 <= i < a0.len() && #[trigger] a0[i] implies b0[i] by {
                assert(a[i]);
            }
        }
        assert(a[n - 1] ==> b[n - 1]);
        if a0 == b0 {
            assert(a.last() != b.last()) by {
                if a.last() == b.last() {
                    assert forall|i: int| 0 <= i < n implies a[i] == b[i] by {
                        if i < n - 1 {
                            assert(a0[i] == b0[i]);
                        }
                    }
                    assert(a =~= b);
                }
            }
        } else {
            lemma_more_pins_come_first(a0, b0);
        }
    } else {
        assert(a =~= b);
    }
}

/// The search accepts the first feasible candidate in its order. Whatever
/// feasibility means, no feasible candidate pins every repair that the
/// accepted one pins and more: the accepted repair set cannot be made
/// sparser by leaving out some of its repairs.
pub proof fn lemma_accepted_is_sparsest_by_inclusion(
    feasible: spec_fn(Seq<bool>) -> bool,
    accepted: Seq<bool>,
    other: Seq<bool>,
)
    requires
        forall|q: Seq<bool>|
            q.len() == accepted.len() && candidate_rank(q) < candidate_rank(accepted) ==> !#[trigger] feasible(q),
        feasible(other),
        pins_at_least(other, accepted),
    ensures
        other == accepted,
{
    if other != accepted {
        lemma_more_pins_come_first(accepted, other);
    }
}

/// The first candidate of the search: every repair pinned to zero.
pub fn first_candidate(n: usize) -> (r: Vec<bool>)
    ensures
        r@.len() == n,
        candidate_rank(r@) == 0,
        forall|i: int| 0 <= i < n ==> #[trigger] r@[i],
{
    let mut r: Vec<bool> = Vec::new();
    while r.len() < n
        invariant
            r.len() <= n,
            forall|i: int| 0 <= i < r.len() ==> #[trigger] r@[i],
            candidate_rank(r@) == 0,
        decreases n - r.len(),
    {
        let ghost before = r@;
        r.push(true);
        assert(r@.drop_last() =~= before);
    }
    r
}

/// The candidate that follows `pins` in the search order, or `None` after
/// the last one (every repair free).
pub fn next_candidate(pins: &Vec<bool>) -> (r: Option<Vec<bool>>)
    ensures
        r.is_none() <==> candidate_rank(pins@) == pow2(pins@.len()) - 1,
        r.is_some() ==> r.unwrap()@.len() == pins@.len() && candidate_rank(r.unwrap()@) == candidate_rank(
            pins@,
        ) + 1,
{
    proof {
        lemma_rank_bounds(pins@);
    }
    let n = pins.len();
    let mut i: usize = n;
    while i > 0
        invariant
            i <= n,
            n == pins.len(),
            forall|k: int| i <= k < n ==> !#[trigger] pins@[k],
        ensures
            i == 0 || pins@[i - 1],
            forall|k: int| i <= k < n ==> !#[trigger] pins@[k],
        decreases i,
    {
        if pins[i - 1] {
            break;
        }
        i = i - 1;
    }
    if i == 0 {
        return None;
    }
    let at = i - 1;
    let mut r: Vec<bool> = Vec::new();
    let mut k: usize = 0;
    while k < at
        invariant
            k <= at,
            at < n,
            n == pins.len(),
            r@ == pins@.take(k as int),
        decreases at - k,
    {
        r.push(pins[k]);
        k = k + 1;
        assert(r@ =~= pins@.take(k as int));
    }
    r.push(false);
    let mut j: usize = at + 1;
    let ghost head = r@;
    assert(head =~= pins@.take(at as int) + seq![false]);
    while j < n
        invariant
            at + 1 <= j <= n,
            n == pins.len(),
            r@.len() == j,
            r@.take(at + 1) == head,
            forall|m: int| at + 1 <= m < j ==> #[trigger] r@[m],
        decreases n - j,
    {
        r.push(true);
        j = j + 1;
        assert(r@.take(at + 1) =~= head);
    }
    proof {
        let prefix = pins@.take(at as int);
        let m = (n - at - 1) as nat;
        let free_tail = pins@.skip(at + 1);
        let pinned_tail = r@.skip(at + 1);
        assert(pins@ =~= prefix + seq![true] + free_tail);
        assert(r@ =~= prefix + seq![false] + pinned_tail);
        assert(forall|q: int| 0 <= q < free_tail.len() ==> !#[trigger] free_tail[q]);
        lemma_rank_bounds(free_tail);
        lemma_rank_bounds(pinned_tail);
        assert(r@ =~= r@.take(at + 1) + pinned_tail);
        assert forall|q: int| 0 <= q < pinned_tail.len() implies #[trigger] pinned_tail[q] by {
            assert(r@[at + 1 + q]);
        }
        lemma_rank_zero(pinned_tail);
        lemma_rank_append(prefix + seq![true], free_tail);
        lemma_rank_append(prefix + seq![false], pinned_tail);
        lemma_rank_append(prefix, seq![true]);
        lemma_rank_append(prefix, seq![false]);
        assert(seq![true].drop_last() =~= Seq::<bool>::empty());
        assert(seq![false].drop_last() =~= Seq::<bool>::empty());
        reveal_with_fuel(pow2, 2);
        reveal_with_fuel(candidate_rank, 2);
        assert(pow2(1) == 2);
        assert(candidate_rank(seq![true]) == 0);
        assert(candidate_rank(seq![false]) == 1);
        let rp = candidate_rank(prefix);
        assert(candidate_rank(prefix + seq![true]) == 2 * rp);
        assert(candidate_rank(prefix + seq![false]) == 2 * rp + 1);
        let pm = pow2(m);
        assert(free_tail.len() == m && pinned_tail.len() == m);
        assert(candidate_rank(free_tail) == pm - 1);
        assert(candidate_rank(pins@) == (2 * rp) * pm + (pm - 1));
        assert(candidate_rank(r@) == (2 * rp + 1) * pm);
        assert((2 * rp + 1) * pm == (2 * rp) * pm + pm) by (nonlinear_arith);
        assert(pins@[at as int]);
    }
    Some(r)
}

proof fn lemma_rank_zero(p: Seq<bool>)
    requires
        forall|i: int| 0 <= i < p.len() ==> #[trigger] p[i],
    ensures
        candidate_rank(p) == 0,
    decreases p.len(),
{
    if p.len() > 0 {
        assert forall|i: int| 0 <= i < p.drop_last().len() implies #[trigger] p.drop_last()[i] by {
            assert(p[i]);
        }
        lemma_rank_zero(p.drop_last());
        assert(p[p.len() - 1]);
    }
}

/// Index of the column block of the object labelled `x`.
pub open spec fn column_index(labels: Seq<Seq<char>>, x: Seq<char>) -> int {
    choose|k: int| 0 <= k < labels.len() && labels[k] == x
}

/// The column blocks of the repairs that `pins` pins to zero and that own a
/// block, in the order of the repairs.
pub open spec fn pinned_columns(labels: Seq<Seq<char>>, repairs: Seq<Seq<char>>, pins: Seq<bool>) -> Seq<int>
    decreases repairs.len(),
{
    if repairs.len() == 0 || pins.len() != repairs.len() {
        seq![]
    } else {
        let rest = pinned_columns(labels, repairs.drop_last(), pins.drop_last());
        if pins.last() && labels.contains(repairs.last()) {
            rest.push(column_index(labels, repairs.last()))
        } else {
            rest
        }
    }
}

/// Cell `j` of the row that pins the scalar prefix of column block `col` to zero.
pub open spec fn pin_row_value(col: int, j: int) -> int {
    if j == 8 * col {
        1
    } else {
        0
    }
}

fn copy_row(row: &Vec<i64>) -> (r: Vec<i64>)
    ensures
        r@ == row@,
{
    let mut r: Vec<i64> = Vec::new();
    let mut j: usize = 0;
    while j < row.len()
        invariant
            j <= row.len(),
            r@ == row@.take(j as int),
        decreases row.len() - j,
    {
        r.push(row[j]);
        j = j + 1;
        assert(r@ =~= row@.take(j as int));
    }
    assert(row@.take(row.len() as int) =~= row@);
    r
}

/// The rows of a linear system followed by one row for each repair that the
/// candidate pins to zero: a one in the scalar-prefix column of the repair,
/// zero elsewhere, right-hand side zero. A repair without a column block
/// adds no row.
pub fn pin_repair_rows(rows: &Vec<Vec<i64>>, labels: &Vec<String>, repairs: &Vec<String>, pins: &Vec<bool>) -> (r: Vec<
    Vec<i64>,
>)
    requires
        pins.len() == repairs.len(),
        label_views(labels@).no_duplicates(),
        8 * labels.len() + 1 <= usize::MAX,
    ensures
        r@.len() == rows@.len() + pinned_columns(label_views(labels@), label_views(repairs@), pins@).len(),
        forall|k: int| 0 <= k < rows@.len() ==> #[trigger] r@[k]@ == rows@[k]@,
        forall|k: int|
            0 <= k < pinned_columns(label_views(labels@), label_views(repairs@), pins@).len() ==> #[trigger] r@[rows@.len()
                + k]@.len() == 8 * labels.len() + 1,
        forall|k: int, j: int|
            0 <= k < pinned_columns(label_views(labels@), label_views(repairs@), pins@).len() && 0 <= j <= 8
                * labels.len() ==> #[trigger] r@[rows@.len() + k]@[j] as int == pin_row_value(
                pinned_columns(label_views(labels@), label_views(repairs@), pins@)[k],
                j,
            ),
{
    let ghost lv = label_views(labels@);
    let ghost rv = label_views(repairs@);
    let mut r: Vec<Vec<i64>> = Vec::new();
    let mut k: usize = 0;
    while k < rows.len()
        invariant
            k <= rows.len(),
            r@.len() == k,
            forall|q: int| 0 <= q < k ==> #[trigger] r@[q]@ == rows@[q]@,
        decreases rows.len() - k,
    {
        r.push(copy_row(&rows[k]));
        k = k + 1;
    }
    let base = rows.len();
    let width = COLUMNS_PER_OBJECT * labels.len() + 1;
    let mut i: usize = 0;
    assert(rv.take(0) =~= Seq::<Seq<char>>::empty());
    while i < repairs.len()
        invariant
            i <= repairs.len(),
            pins.len() == repairs.len(),
            base == rows@.len(),
            width == 8 * labels.len() + 1,
            lv == label_views(labels@),
            rv == label_views(repairs@),
            lv.no_duplicates(),
            r@.len() == base + pinned_columns(lv, rv.take(i as int), pins@.take(i as int)).len(),
            forall|q: int| 0 <= q < base ==> #[trigger] r@[q]@ == rows@[q]@,
            forall|q: int|
                0 <= q < pinned_columns(lv, rv.take(i as int), pins@.take(i as int)).len() ==> #[trigger] r@[base
                    + q]@.len() == width,
            forall|q: int, j: int|
                0 <= q < pinned_columns(lv, rv.take(i as int), pins@.take(i as int)).len() && 0 <= j < width
                    ==> #[trigger] r@[base + q]@[j] as int == pin_row_value(
                    pinned_columns(lv, rv.take(i as int), pins@.take(i as int))[q],
                    j,
                ),
        decreases repairs.len() - i,
    {
        let ghost before = pinned_columns(lv, rv.take(i as int), pins@.take(i as int));
        let ghost rs = rv.take(i + 1);
        let ghost ps = pins@.take(i + 1);
        proof {
            assert(rs.drop_last() =~= rv.take(i as int));
            assert(ps.drop_last() =~= pins@.take(i as int));
            assert(rs.last() == repairs@[i as int]@);
        }
        if pins[i] {
            match find_label(labels, &repairs[i]) {
                Some(col) => {
                    let mut row: Vec<i64> = Vec::new();
                    while row.len() < width
                        invariant
                            row.len() <= width,
                            forall|j: int| 0 <= j < row.len() ==> #[trigger] row@[j] == 0,
                        decreases width - row.len(),
                    {
                        row.push(0);
                    }
                    row[col * COLUMNS_PER_OBJECT] = 1;
                    r.push(row);
                    proof {
                        assert(lv[col as int] == rs.last());
                        assert(lv.contains(rs.last()));
                        let c = column_index(lv, rs.last());
                        assert(lv[c] == lv[col as int]);
                        assert(c == col);
                        assert(pinned_columns(lv, rs, ps) == before.push(col as int));
                    }
                },
                None => {
                    assert(pinned_columns(lv, rs, ps) == before);
                },
            }
        } else {
            assert(pinned_columns(lv, rs, ps) == before);
        }
        i = i + 1;
    }
    assert(rv.take(repairs.len() as int) =~= rv);
    assert(pins@.take(repairs.len() as int) =~= pins@);
    r
}

} // verus!
