//! When a plan can be run: its indices are in bounds, and every column is
//! sorted within the range in which it is searched.

use vstd::prelude::*;
use crate::order::{lemma_value_lt_asymmetric, lemma_value_lt_irreflexive, value_lt};
use crate::plan::{ConstraintView, Function, LoHi, RowCol};
use crate::semantics::{before, first_fail, narrow};
use crate::value::ValueView;

verus! {

/// An index has three columns of one length.
pub open spec fn index_ok(ix: Seq<Seq<ValueView>>) -> bool {
    ix.len() == 3 && ix[1].len() == ix[0].len() && ix[2].len() == ix[0].len()
}

/// Every row has an index and a range that ends within it.
pub open spec fn state_ok(idx: Seq<Seq<Seq<ValueView>>>, ranges: Seq<LoHi>) -> bool {
    &&& ranges.len() == idx.len()
    &&& forall|r: int|
        0 <= r < idx.len() ==> index_ok(#[trigger] idx[r]) && ranges[r].1 <= idx[r][0].len()
}

/// A constraint names only rows below `rows`, columns below 3 and slots
/// below `slots`, and a join has a column to lead it.
pub open spec fn constraint_ok(c: ConstraintView, rows: int, slots: int) -> bool {
    match c {
        ConstraintView::Narrow((row, col), slot) => row < rows && col < 3 && slot < slots,
        ConstraintView::Join(rowcols, slot) => {
            &&& rowcols.len() > 0
            &&& slot < slots
            &&& forall|i: int|
                0 <= i < rowcols.len() ==> (#[trigger] rowcols[i]).0 < rows && rowcols[i].1 < 3
        },
        ConstraintView::Apply(slot, _, Function::Add(a, b)) => slot < slots && a < slots && b
            < slots,
        ConstraintView::Assert(a, b, c) => a < slots && b < slots && c < slots,
        ConstraintView::Debug(named) => forall|i: int|
            0 <= i < named.len() ==> (#[trigger] named[i]).1 < slots,
    }
}

/// Every constraint of the program is in bounds.
pub open spec fn program_ok(cs: Seq<ConstraintView>, rows: int, slots: int) -> bool {
    forall|i: int| 0 <= i < cs.len() ==> constraint_ok(#[trigger] cs[i], rows, slots)
}

/// The columns that one constraint searches, in the order in which it does.
pub open spec fn head_probes(c: ConstraintView) -> Seq<RowCol> {
    match c {
        ConstraintView::Narrow(rc, _) => seq![rc],
        ConstraintView::Join(rowcols, _) => rowcols,
        _ => Seq::empty(),
    }
}

/// The columns that the program searches, in the order in which it does.
pub open spec fn probes(cs: Seq<ConstraintView>) -> Seq<RowCol>
    decreases cs.len(),
{
    if cs.len() == 0 {
        Seq::empty()
    } else {
        head_probes(cs[0]) + probes(cs.drop_first())
    }
}

/// The columns of `row` among `pending`, in order.
pub open spec fn cols_of(pending: Seq<RowCol>, row: int) -> Seq<usize>
    decreases pending.len(),
{
    if pending.len() == 0 {
        Seq::empty()
    } else if pending[0].0 == row {
        seq![pending[0].1] + cols_of(pending.drop_first(), row)
    } else {
        cols_of(pending.drop_first(), row)
    }
}

/// Position `i` of the index does not come after position `j` when the two
/// are compared column by column, in the order `cols`.
pub open spec fn lex_le(ix: Seq<Seq<ValueView>>, cols: Seq<usize>, i: int, j: int) -> bool
    decreases cols.len(),
{
    if cols.len() == 0 {
        true
    } else {
        let c = ix[cols[0] as int];
        value_lt(c[i], c[j]) || (c[i] == c[j] && lex_le(ix, cols.drop_first(), i, j))
    }
}

/// Within `lo..hi` the index is sorted by the columns `cols`.
pub open spec fn sorted_on(ix: Seq<Seq<ValueView>>, cols: Seq<usize>, lo: int, hi: int) -> bool {
    forall|i: int, j: int| lo <= i <= j < hi ==> #[trigger] lex_le(ix, cols, i, j)
}

/// Every row is sorted, within its range, by the columns in which it is
/// still to be searched.
pub open spec fn ready(pending: Seq<RowCol>, idx: Seq<Seq<Seq<ValueView>>>, ranges: Seq<LoHi>) -> bool {
    forall|r: int|
        0 <= r < idx.len() ==> sorted_on(
            #[trigger] idx[r],
            cols_of(pending, r),
            ranges[r].0 as int,
            ranges[r].1 as int,
        )
}

/// The values at `lo..hi` never go down.
pub open spec fn ascending(col: Seq<ValueView>, lo: int, hi: int) -> bool {
    forall|i: int, j: int| lo <= i <= j < hi ==> !value_lt(#[trigger] col[j], #[trigger] col[i])
}

/// A range sorted by some columns is ascending in the first of them.
pub proof fn lemma_sorted_ascending(ix: Seq<Seq<ValueView>>, cols: Seq<usize>, lo: int, hi: int)
    requires
        cols.len() > 0,
        sorted_on(ix, cols, lo, hi),
    ensures
        ascending(ix[cols[0] as int], lo, hi),
{
    let c = ix[cols[0] as int];
    assert forall|i: int, j: int| lo <= i <= j < hi implies !value_lt(
        #[trigger] c[j],
        #[trigger] c[i],
    ) by {
        assert(lex_le(ix, cols, i, j));
        lemma_value_lt_irreflexive(c[i]);
        if value_lt(c[i], c[j]) {
            lemma_value_lt_asymmetric(c[i], c[j]);
        }
    }
}

/// `first_fail` parts the range: before it every value lies before `v`, and
/// the value at it does not.
pub proof fn lemma_first_fail_parts(col: Seq<ValueView>, lo: int, hi: int, v: ValueView, strict: bool)
    ensures
        lo <= first_fail(col, lo, hi, v, strict),
        lo <= hi ==> first_fail(col, lo, hi, v, strict) <= hi,
        lo >= hi ==> first_fail(col, lo, hi, v, strict) == lo,
        forall|i: int|
            lo <= i < first_fail(col, lo, hi, v, strict) ==> before(#[trigger] col[i], v, strict),
        first_fail(col, lo, hi, v, strict) < hi ==> !before(
            col[first_fail(col, lo, hi, v, strict)],
            v,
            strict,
        ),
    decreases hi - lo,
{
    if lo < hi && before(col[lo], v, strict) {
        lemma_first_fail_parts(col, lo + 1, hi, v, strict);
    }
}

/// A position that parts a range by `before` is the first at which `before`
/// fails.
pub proof fn lemma_first_fail_is_part(
    col: Seq<ValueView>,
    lo: int,
    hi: int,
    v: ValueView,
    strict: bool,
    r: int,
)
    requires
        lo <= r,
        lo < hi ==> r <= hi,
        lo >= hi ==> r == lo,
        forall|i: int| lo <= i < r ==> before(#[trigger] col[i], v, strict),
        r < hi ==> !before(col[r], v, strict),
    ensures
        r == first_fail(col, lo, hi, v, strict),
    decreases hi - lo,
{
    if lo < hi && before(col[lo], v, strict) {
        lemma_first_fail_is_part(col, lo + 1, hi, v, strict, r);
    }
}

/// `before` is true on a prefix of an ascending range.
pub proof fn lemma_before_monotone(col: Seq<ValueView>, lo: int, hi: int, v: ValueView, strict: bool)
    requires
        ascending(col, lo, hi),
    ensures
        forall|i: int, j: int|
            lo <= i <= j < hi && before(#[trigger] col[j], v, strict) ==> before(
                #[trigger] col[i],
                v,
                strict,
            ),
{
    assert forall|i: int, j: int|
        lo <= i <= j < hi && before(#[trigger] col[j], v, strict) implies before(
        #[trigger] col[i],
        v,
        strict,
    ) by {
        crate::order::lemma_value_lt_total(col[i], col[j]);
        if value_lt(col[i], col[j]) && value_lt(col[j], v) {
            crate::order::lemma_value_lt_transitive(col[i], col[j], v);
        }
    }
}

/// In an ascending range, `narrow` finds exactly the positions that hold
/// `v`.
pub proof fn lemma_narrow_exact(col: Seq<ValueView>, range: LoHi, v: ValueView)
    requires
        ascending(col, range.0 as int, range.1 as int),
    ensures
        range.0 <= narrow(col, range, v).0,
        narrow(col, range, v).0 <= narrow(col, range, v).1,
        range.0 <= range.1 ==> narrow(col, range, v).1 <= range.1,
        range.0 > range.1 ==> narrow(col, range, v).1 == range.0,
        forall|i: int|
            range.0 <= i < range.1 ==> (narrow(col, range, v).0 <= i < narrow(col, range, v).1
                <==> #[trigger] col[i] == v),
{
    let lo0 = range.0 as int;
    let hi0 = range.1 as int;
    let lo = first_fail(col, lo0, hi0, v, true);
    let hi = first_fail(col, lo, hi0, v, false);
    lemma_first_fail_parts(col, lo0, hi0, v, true);
    lemma_first_fail_parts(col, lo, hi0, v, false);
    lemma_value_lt_irreflexive(v);
    assert forall|i: int| lo0 <= i < hi0 implies (lo <= i < hi <==> #[trigger] col[i] == v) by {
        if i < lo {
            assert(before(col[i], v, true));
        } else if i < hi {
            assert(before(col[i], v, false));
            assert(!value_lt(col[i], col[lo]));
            if value_lt(col[i], v) {
                crate::order::lemma_value_lt_total(col[lo], v);
                if value_lt(v, col[lo]) {
                    crate::order::lemma_value_lt_transitive(col[i], v, col[lo]);
                }
            }
        } else {
            assert(!value_lt(col[i], col[hi]));
            assert(!before(col[hi], v, false));
            crate::order::lemma_value_lt_total(col[hi], v);
            if value_lt(col[i], v) {
                crate::order::lemma_value_lt_transitive(col[i], v, col[hi]);
            }
        }
    }
}

/// After the first pending column of a row has been found constant on a
/// part of the row's range, the plan is ready for the rest on that part.
pub proof fn lemma_ready_step(
    pending: Seq<RowCol>,
    idx: Seq<Seq<Seq<ValueView>>>,
    ranges: Seq<LoHi>,
    lo: usize,
    hi: usize,
)
    requires
        pending.len() > 0,
        pending[0].0 < idx.len(),
        state_ok(idx, ranges),
        ready(pending, idx, ranges),
        ranges[pending[0].0 as int].0 <= lo <= hi <= ranges[pending[0].0 as int].1,
        forall|i: int|
            lo <= i < hi ==> #[trigger] idx[pending[0].0 as int][pending[0].1 as int][i]
                == idx[pending[0].0 as int][pending[0].1 as int][lo as int],
    ensures
        state_ok(idx, ranges.update(pending[0].0 as int, (lo, hi))),
        ready(pending.drop_first(), idx, ranges.update(pending[0].0 as int, (lo, hi))),
{
    let row = pending[0].0 as int;
    let col = pending[0].1 as int;
    let next = ranges.update(row, (lo, hi));
    let rest = pending.drop_first();
    assert forall|r: int| 0 <= r < idx.len() implies sorted_on(
        #[trigger] idx[r],
        cols_of(rest, r),
        next[r].0 as int,
        next[r].1 as int,
    ) by {
        assert(sorted_on(idx[r], cols_of(pending, r), ranges[r].0 as int, ranges[r].1 as int));
        if r == row {
            let cols = cols_of(pending, r);
            assert(cols.drop_first() =~= cols_of(rest, r));
            assert forall|i: int, j: int| lo <= i <= j < hi implies #[trigger] lex_le(
                idx[r],
                cols_of(rest, r),
                i,
                j,
            ) by {
                assert(lex_le(idx[r], cols, i, j));
                assert(idx[row][col][i] == idx[row][col][lo as int]);
                assert(idx[row][col][j] == idx[row][col][lo as int]);
                lemma_value_lt_irreflexive(idx[row][col][i]);
            }
        }
    }
}

/// `a` is the beginning of `b`.
pub open spec fn is_prefix(a: Seq<usize>, b: Seq<usize>) -> bool {
    a.len() <= b.len() && a == b.take(a.len() as int)
}

/// The program searches the columns of every row in the order in which the
/// row's index is sorted.
pub open spec fn aligned(cs: Seq<ConstraintView>, orderings: Seq<Seq<usize>>) -> bool {
    forall|r: int|
        0 <= r < orderings.len() ==> is_prefix(cols_of(probes(cs), r), #[trigger] orderings[r])
}

/// What is in order by some columns is in order by the first `k` of them.
pub proof fn lemma_lex_le_prefix(ix: Seq<Seq<ValueView>>, cols: Seq<usize>, k: int, i: int, j: int)
    requires
        0 <= k <= cols.len(),
        lex_le(ix, cols, i, j),
    ensures
        lex_le(ix, cols.take(k), i, j),
    decreases k,
{
    if k > 0 {
        let c = ix[cols[0] as int];
        assert(cols.take(k)[0] == cols[0]);
        if !value_lt(c[i], c[j]) {
            lemma_lex_le_prefix(ix, cols.drop_first(), k - 1, i, j);
            assert(cols.take(k).drop_first() =~= cols.drop_first().take(k - 1));
        }
    }
}

/// A range sorted by some columns is sorted by the first `k` of them.
pub proof fn lemma_sorted_prefix(
    ix: Seq<Seq<ValueView>>,
    cols: Seq<usize>,
    k: int,
    lo: int,
    hi: int,
)
    requires
        0 <= k <= cols.len(),
        sorted_on(ix, cols, lo, hi),
    ensures
        sorted_on(ix, cols.take(k), lo, hi),
{
    assert forall|i: int, j: int| lo <= i <= j < hi implies #[trigger] lex_le(
        ix,
        cols.take(k),
        i,
        j,
    ) by {
        assert(lex_le(ix, cols, i, j));
        lemma_lex_le_prefix(ix, cols, k, i, j);
    }
}

} // verus!
